//! The pivot engine: the rows, their grouping, which groups are expanded,
//! the column groups and the column list.

use vstd::prelude::*;

use std::collections::HashSet;

use crate::grouping::{
    lemma_groups_unique, lemma_members_unique, seasons_transitive,
    build_groups, collect_members, groups_match, groups_view, members_match, rows_view,
    strictly_ascending, texts_view, Group,
};
use crate::layout::{
    build_columns, build_visible, cell_text, col_groups_view, columns_spec, find_sep,
    find_width_slot, first_sep, key_group, key_member, label_of_column, member_key, visible_spec,
    width_slot, ColGroup, VisCol, column_label_spec, cell_spec, position_of, vis_cols_view,
    lemma_visible_group_bound, visible_groups, member_part, col_groups_valid, group_offset,
    group_width, lemma_member_key_split, lemma_no_colon_no_sep, lemma_offset_same_widths,
    lemma_visible_groups_index, lemma_visible_groups_locate, lemma_width_slot_found, visible_group,
    copy_groups, group_has_column, lemma_group_columns, lemma_no_dup_concat, columns_of_groups,
    group_columns, lemma_width_slot_in,
    no_colon,
};
use crate::row::DataRow;
use crate::text::lex_lt;

verus! {

broadcast use vstd::std_specs::hash::group_hash_axioms;

/// The abstract state of a pivot engine.
pub struct PivotState {
    pub data: Seq<Map<Seq<char>, Seq<char>>>,
    pub columns: Seq<Seq<char>>,
    pub groups: Seq<(Seq<char>, Seq<usize>)>,
    pub expanded: Set<usize>,
    pub col_groups: Seq<(Seq<char>, Seq<char>, bool, Seq<Seq<char>>)>,
}

/// The state right after loading `rows`: rows grouped, nothing expanded, the
/// winner and runner-up groups collapsed and holding the distinct team names,
/// and no column list yet.
pub open spec fn fresh_state(s: PivotState, rows: Seq<Map<Seq<char>, Seq<char>>>) -> bool {
    &&& s.data == rows
    &&& s.columns == Seq::<Seq<char>>::empty()
    &&& groups_match(rows, s.groups)
    &&& s.expanded == Set::<usize>::empty()
    &&& s.col_groups.len() == 2
    &&& s.col_groups[0].0 == "winner"@
    &&& s.col_groups[0].1 == "Winner"@
    &&& !s.col_groups[0].2
    &&& members_match(rows, "winner"@, s.col_groups[0].3)
    &&& s.col_groups[1].0 == "runner_up"@
    &&& s.col_groups[1].1 == "Runner Up"@
    &&& !s.col_groups[1].2
    &&& members_match(rows, "runner_up"@, s.col_groups[1].3)
}

/// The label that goes with a column group key.
pub open spec fn label_for(key: Seq<char>) -> Seq<char> {
    if key == "winner"@ {
        "Winner"@
    } else {
        "Runner Up"@
    }
}

/// There are exactly two column groups, winner and runner-up in some order,
/// each with its own label.
pub open spec fn col_groups_shape(cgs: Seq<(Seq<char>, Seq<char>, bool, Seq<Seq<char>>)>) -> bool {
    &&& cgs.len() == 2
    &&& (cgs[0].0 == "winner"@ && cgs[1].0 == "runner_up"@) || (cgs[0].0 == "runner_up"@ && cgs[1].0 == "winner"@)
    &&& cgs[0].1 == label_for(cgs[0].0)
    &&& cgs[1].1 == label_for(cgs[1].0)
}

/// What holds of every engine: its groups are the grouping of its rows, and
/// it has the winner and runner-up column groups with valid keys and members.
pub open spec fn state_valid(s: PivotState) -> bool {
    &&& groups_match(s.data, s.groups)
    &&& col_groups_valid(s.col_groups)
    &&& col_groups_shape(s.col_groups)
    &&& columns_match(s.columns, s.col_groups)
}

/// `k` is a key of the column list: competition, season, or a column of one of
/// the two groups.
pub open spec fn is_column_key(cgs: Seq<(Seq<char>, Seq<char>, bool, Seq<Seq<char>>)>, k: Seq<char>) -> bool {
    ||| k == "competition"@
    ||| k == "season"@
    ||| group_has_column(cgs[0], k)
    ||| group_has_column(cgs[1], k)
}

/// The column list is either not built yet, or holds every column key of the
/// groups exactly once (members may be listed in an earlier order).
pub open spec fn columns_match(columns: Seq<Seq<char>>, cgs: Seq<(Seq<char>, Seq<char>, bool, Seq<Seq<char>>)>) -> bool {
    columns.len() == 0 || {
        &&& columns.no_duplicates()
        &&& forall|k: Seq<char>| columns.contains(k) <==> is_column_key(cgs, k)
    }
}

/// The four fixed column names are distinct and free of colons.
proof fn lemma_fixed_names()
    ensures
        no_colon("competition"@),
        no_colon("season"@),
        no_colon("winner"@),
        no_colon("runner_up"@),
        "competition"@ != "season"@,
        "competition"@ != "winner"@,
        "competition"@ != "runner_up"@,
        "season"@ != "winner"@,
        "season"@ != "runner_up"@,
        "winner"@ != "runner_up"@,
{
    reveal_strlit("competition");
    reveal_strlit("season");
    reveal_strlit("winner");
    reveal_strlit("runner_up");
    assert("season"@[0] != "winner"@[0]);
}

/// The column list built from valid groups matches them.
proof fn lemma_columns_spec_match(cgs: Seq<(Seq<char>, Seq<char>, bool, Seq<Seq<char>>)>)
    requires
        col_groups_valid(cgs),
        col_groups_shape(cgs),
    ensures
        columns_match(columns_spec(cgs), cgs),
        columns_spec(cgs).len() > 0,
{
    lemma_fixed_names();
    let c = "competition"@;
    let se = "season"@;
    let g0 = group_columns(cgs[0]);
    let g1 = group_columns(cgs[1]);
    assert(no_colon(cgs[0].0));
    assert(no_colon(cgs[1].0));
    lemma_group_columns(cgs[0]);
    lemma_group_columns(cgs[1]);
    lemma_no_colon_no_sep(c);
    lemma_no_colon_no_sep(se);
    lemma_no_colon_no_sep(cgs[0].0);
    lemma_no_colon_no_sep(cgs[1].0);
    assert(cgs.drop_last().drop_last().len() == 0);
    assert(cgs.drop_last().last() == cgs[0]);
    assert(columns_of_groups(cgs.drop_last().drop_last()) =~= Seq::<Seq<char>>::empty());
    assert(columns_of_groups(cgs.drop_last()) =~= g0);
    assert(columns_of_groups(cgs) =~= g0 + g1);
    let base = seq![c, se];
    assert(base.no_duplicates());
    assert(cgs[0].0 != cgs[1].0);
    assert forall|x: Seq<char>| g0.contains(x) implies !g1.contains(x) by {
        assert(group_has_column(cgs[0], x));
        if g1.contains(x) {
            assert(group_has_column(cgs[1], x));
        }
    }
    lemma_no_dup_concat(g0, g1);
    assert forall|x: Seq<char>| base.contains(x) implies !(g0 + g1).contains(x) by {
        let i = choose|i: int| 0 <= i < base.len() && base[i] == x;
        assert(x == c || x == se);
        if g0.contains(x) {
            assert(group_has_column(cgs[0], x));
        }
        if g1.contains(x) {
            assert(group_has_column(cgs[1], x));
        }
    }
    lemma_no_dup_concat(base, g0 + g1);
    assert(columns_spec(cgs) =~= base + (g0 + g1));
    assert forall|k: Seq<char>| columns_spec(cgs).contains(k) <==> is_column_key(cgs, k) by {
        if k == c {
            assert(base[0] == k);
        }
        if k == se {
            assert(base[1] == k);
        }
        if base.contains(k) {
            let i = choose|i: int| 0 <= i < 2 && base[i] == k;
            assert(k == c || k == se);
        }
    }
}

/// Adds `x` to `s` when absent, removes it when present.
pub open spec fn toggled(s: Set<usize>, x: usize) -> Set<usize> {
    if s.contains(x) {
        s.remove(x)
    } else {
        s.insert(x)
    }
}

/// The column groups with group `idx` expanded or collapsed; unchanged when
/// there is no such group.
pub open spec fn toggled_group(
    cgs: Seq<(Seq<char>, Seq<char>, bool, Seq<Seq<char>>)>,
    idx: usize,
) -> Seq<(Seq<char>, Seq<char>, bool, Seq<Seq<char>>)> {
    if idx < cgs.len() {
        cgs.update(idx as int, (cgs[idx as int].0, cgs[idx as int].1, !cgs[idx as int].2, cgs[idx as int].3))
    } else {
        cgs
    }
}

/// Toggling a row group twice restores which groups are expanded.
pub proof fn lemma_toggle_row_twice(s: Set<usize>, row_idx: usize)
    ensures
        toggled(toggled(s, row_idx), row_idx) == s,
{
    assert(toggled(toggled(s, row_idx), row_idx) =~= s);
}

/// Toggling a column group twice restores the column groups.
pub proof fn lemma_toggle_col_group_twice(
    cgs: Seq<(Seq<char>, Seq<char>, bool, Seq<Seq<char>>)>,
    idx: usize,
)
    ensures
        toggled_group(toggled_group(cgs, idx), idx) == cgs,
{
    assert(toggled_group(toggled_group(cgs, idx), idx) =~= cgs);
}

/// `s` with the elements at `i` and `j` exchanged.
pub open spec fn swapped<T>(s: Seq<T>, i: int, j: int) -> Seq<T> {
    s.update(i, s[j]).update(j, s[i])
}

/// Whether `swap_visible_columns(from, to)` exchanges two member columns of one
/// group: both positions are distinct member columns (not the pinned first one)
/// of the same group, and both members are in the group's list.
pub open spec fn member_swap_applies(s: PivotState, from: usize, to: usize) -> bool {
    let vis = visible_spec(s.columns, s.col_groups);
    &&& from != to
    &&& from != 0
    &&& to != 0
    &&& from < vis.len()
    &&& to < vis.len()
    &&& vis[from as int].3 is Some
    &&& vis[from as int].3 == vis[to as int].3
    &&& first_sep(vis[from as int].0) >= 0
    &&& first_sep(vis[to as int].0) >= 0
    &&& s.col_groups[vis[from as int].3->0 as int].3.contains(key_member(vis[from as int].0))
    &&& s.col_groups[vis[from as int].3->0 as int].3.contains(key_member(vis[to as int].0))
}

/// What `swap_visible_columns(from, to)` does to the column groups. Two member
/// columns of one group exchange their places in the member list; columns of
/// two different groups exchange the whole groups; anything else changes
/// nothing. Column widths are found by column key, so no width moves: each
/// team, and each group, keeps its own width.
pub open spec fn swap_outcome(
    s: PivotState,
    from: usize,
    to: usize,
) -> Seq<(Seq<char>, Seq<char>, bool, Seq<Seq<char>>)> {
    let vis = visible_spec(s.columns, s.col_groups);
    if from == to || from == 0 || to == 0 || from >= vis.len() || to >= vis.len() {
        s.col_groups
    } else {
        let f = vis[from as int];
        let t = vis[to as int];
        match (f.3, t.3) {
            (Some(fg), Some(tg)) => if fg == tg && first_sep(f.0) >= 0 && first_sep(t.0) >= 0 {
                let cg = s.col_groups[fg as int];
                let fb = key_member(f.0);
                let tb = key_member(t.0);
                if cg.3.contains(fb) && cg.3.contains(tb) {
                    s.col_groups.update(
                        fg as int,
                        (cg.0, cg.1, cg.2, swapped(cg.3, width_slot(cg.3, fb) as int, width_slot(cg.3, tb) as int)),
                    )
                } else {
                    s.col_groups
                }
            } else if fg != tg {
                swapped(s.col_groups, fg as int, tg as int)
            } else {
                s.col_groups
            },
            _ => s.col_groups,
        }
    }
}

/// The first display row of group `g`: each group takes one row, plus one per
/// member row when it is expanded.
pub open spec fn row_start(groups: Seq<(Seq<char>, Seq<usize>)>, expanded: Set<usize>, g: nat) -> nat
    decreases g,
{
    if g == 0 {
        0
    } else {
        row_start(groups, expanded, (g - 1) as nat) + 1 + if expanded.contains((g - 1) as usize) {
            groups[g - 1].1.len()
        } else {
            0
        }
    }
}

/// The pivot engine.
pub struct PivotEngine {
    data: Vec<DataRow>,
    columns: Vec<String>,
    groups: Vec<Group>,
    expanded_rows: HashSet<usize>,
    col_groups: Vec<ColGroup>,
}

impl View for PivotEngine {
    type V = PivotState;

    closed spec fn view(&self) -> PivotState {
        PivotState {
            data: rows_view(self.data@),
            columns: texts_view(self.columns@),
            groups: groups_view(self.groups@),
            expanded: self.expanded_rows@,
            col_groups: col_groups_view(self.col_groups@),
        }
    }
}

impl PivotEngine {
    #[verifier::type_invariant]
    closed spec fn wf(&self) -> bool {
        state_valid(self@)
    }

    /// Loads `rows`: groups them and builds the two column groups.
    pub fn new(rows: Vec<DataRow>) -> (e: PivotEngine)
        ensures
            fresh_state(e@, rows_view(rows@)),
            state_valid(e@),
    {
        let groups = build_groups(&rows);
        let winners = collect_members(&rows, "winner");
        let runners_up = collect_members(&rows, "runner_up");
        let mut col_groups: Vec<ColGroup> = Vec::new();
        col_groups.push(
            ColGroup {
                key: String::from_str("winner"),
                label: String::from_str("Winner"),
                expanded: false,
                members: winners,
            },
        );
        col_groups.push(
            ColGroup {
                key: String::from_str("runner_up"),
                label: String::from_str("Runner Up"),
                expanded: false,
                members: runners_up,
            },
        );
        let l0 = col_groups[0].members.len();
        let l1 = col_groups[1].members.len();
        proof {
            reveal_strlit("winner");
            reveal_strlit("runner_up");
            lemma_ascending_distinct(texts_view(col_groups@[0].members@));
            lemma_ascending_distinct(texts_view(col_groups@[1].members@));
            let cv = col_groups_view(col_groups@);
            assert(cv[0] == col_groups@[0]@);
            assert(cv[1] == col_groups@[1]@);
            assert(no_colon(cv[0].0));
            assert(no_colon(cv[1].0));
            assert forall|g: int| 0 <= g < cv.len() implies {
                &&& no_colon(#[trigger] cv[g].0)
                &&& cv[g].3.no_duplicates()
                &&& cv[g].3.len() <= usize::MAX
                &&& forall|i: int| 0 <= i < cv[g].3.len() ==> (#[trigger] cv[g].3[i]).len() > 0
            } by {
                if g == 0 {
                    assert(cv[g].3.len() == l0);
                } else {
                    assert(cv[g].3.len() == l1);
                }
                assert forall|i: int| 0 <= i < cv[g].3.len() implies (#[trigger] cv[g].3[i]).len() > 0 by {
                    assert(cv[g].3.contains(cv[g].3[i]));
                }
            }
            assert(col_groups_valid(cv));
        }
        let e = PivotEngine {
            data: rows,
            columns: Vec::new(),
            groups,
            expanded_rows: HashSet::new(),
            col_groups,
        };
        assert(e@.columns =~= Seq::<Seq<char>>::empty());
        e
    }

    /// Replaces the rows and starts over as `new` does.
    pub fn update_data(&mut self, rows: Vec<DataRow>)
        ensures
            fresh_state(final(self)@, rows_view(rows@)),
            state_valid(final(self)@),
    {
        *self = PivotEngine::new(rows);
    }

    /// Expands or collapses the row group `row_idx`.
    pub fn toggle_row(&mut self, row_idx: usize)
        ensures
            final(self)@ == (PivotState { expanded: toggled(old(self)@.expanded, row_idx), ..old(self)@ }),
            state_valid(final(self)@),
    {
        proof {
            use_type_invariant(&*self);
        }
        let mut set: HashSet<usize> = HashSet::new();
        std::mem::swap(&mut set, &mut self.expanded_rows);
        if set.contains(&row_idx) {
            set.remove(&row_idx);
        } else {
            set.insert(row_idx);
        }
        self.expanded_rows = set;
    }

    /// Whether the row group `row_idx` is expanded.
    pub fn is_row_expanded(&self, row_idx: usize) -> (r: bool)
        ensures
            r == self@.expanded.contains(row_idx),
    {
        self.expanded_rows.contains(&row_idx)
    }
}


impl PivotEngine {
    /// Expands or collapses column group `group_idx` (0 = winner, 1 = runner-up);
    /// an index past the end changes nothing.
    pub fn toggle_col_group(&mut self, group_idx: usize)
        ensures
            final(self)@ == (PivotState {
                col_groups: toggled_group(old(self)@.col_groups, group_idx),
                ..old(self)@
            }),
            state_valid(final(self)@),
    {
        proof {
            use_type_invariant(&*self);
        }
        if group_idx < self.col_groups.len() {
            let mut cgs = copy_groups(&self.col_groups);
            let ghost before = cgs@;
            let mut cg = cgs.remove(group_idx);
            cg.expanded = !cg.expanded;
            cgs.insert(group_idx, cg);
            assert(cgs@ =~= before.update(group_idx as int, cg));
            assert(col_groups_view(cgs@) =~= toggled_group(col_groups_view(before), group_idx));
            proof {
                lemma_toggle_valid(col_groups_view(before), group_idx);
            }
            self.col_groups = cgs;
        }
    }

    /// Whether column group `group_idx` exists and is expanded.
    pub fn is_col_group_expanded(&self, group_idx: usize) -> (r: bool)
        ensures
            r == (group_idx < self@.col_groups.len() && self@.col_groups[group_idx as int].2),
    {
        if group_idx < self.col_groups.len() {
            self.col_groups[group_idx].expanded
        } else {
            false
        }
    }

    /// Number of column groups.
    pub fn col_group_count(&self) -> (r: usize)
        ensures
            r == self@.col_groups.len(),
            r == 2,
    {
        proof {
            use_type_invariant(self);
        }
        self.col_groups.len()
    }

    /// The visible columns: competition, season, then for each column group its
    /// header and, when expanded, one column per member.
    pub fn visible_cols(&self) -> (v: Vec<VisCol>)
        ensures
            crate::layout::vis_cols_view(v@) == visible_spec(self@.columns, self@.col_groups),
    {
        build_visible(&self.columns, &self.col_groups)
    }

    /// The width slot of column `col`: its position in the column list, or 0.
    pub fn width_idx_for(&self, col: &str) -> (r: usize)
        ensures
            r == width_slot(self@.columns, col@),
    {
        find_width_slot(&self.columns, col)
    }

    /// The label of the visible column `visible_idx`; it is empty exactly when
    /// there is no such column.
    pub fn get_col_name_at_visible_idx(&self, visible_idx: usize) -> (r: String)
        ensures
            r@ == (if visible_idx < visible_spec(self@.columns, self@.col_groups).len() {
                visible_spec(self@.columns, self@.col_groups)[visible_idx as int].1
            } else {
                Seq::<char>::empty()
            }),
            (r@.len() == 0) <==> visible_idx >= visible_spec(self@.columns, self@.col_groups).len(),
    {
        proof {
            use_type_invariant(self);
            if visible_idx < visible_spec(self@.columns, self@.col_groups).len() {
                lemma_visible_labels_nonempty(self@, visible_idx as int);
            }
        }
        let vcs = self.visible_cols();
        if visible_idx < vcs.len() {
            assert(crate::layout::vis_cols_view(vcs@)[visible_idx as int] == vcs@[visible_idx as int]@);
            vcs[visible_idx].label.clone()
        } else {
            String::new()
        }
    }

    /// The text shown for `row` in the column `vc`: a dot in a member column
    /// when the row's group value is that member, otherwise the row's value.
    pub fn get_cell_value(&self, row: &DataRow, vc: &VisCol) -> (r: String)
        ensures
            r@ == cell_spec(row@, vc.key@, "●"@),
            first_sep(vc.key@) >= 0 ==> r@ == (if row@.contains_key(key_group(vc.key@))
                && row@[key_group(vc.key@)] == key_member(vc.key@) {
                "●"@
            } else {
                Seq::<char>::empty()
            }),
            first_sep(vc.key@) < 0 ==> r@ == (if row@.contains_key(vc.key@) {
                row@[vc.key@]
            } else {
                Seq::<char>::empty()
            }),
    {
        cell_text(row, &vc.key, "●")
    }

    /// Builds the column list: competition, season, then each group's header
    /// followed by one `group::member` column per member.
    pub fn compute_columns(&mut self)
        ensures
            final(self)@ == (PivotState { columns: columns_spec(old(self)@.col_groups), ..old(self)@ }),
            state_valid(final(self)@),
    {
        proof {
            use_type_invariant(&*self);
            lemma_columns_spec_match(self@.col_groups);
        }
        self.columns = build_columns(&self.col_groups);
    }

    /// Number of columns in the column list.
    pub fn columns_len(&self) -> (r: usize)
        ensures
            r == self@.columns.len(),
    {
        self.columns.len()
    }

    /// The label column `i` is measured by.
    pub fn column_label(&self, i: usize) -> (r: String)
        requires
            i < self@.columns.len(),
        ensures
            r@ == column_label_spec(self@.columns[i as int]),
    {
        label_of_column(&self.columns[i])
    }

    /// The sample text of `row` in column `i`: "1" in a member column the row
    /// belongs to, the row's value in any other column.
    pub fn column_sample_text(&self, row: &DataRow, i: usize) -> (r: String)
        requires
            i < self@.columns.len(),
        ensures
            r@ == cell_spec(row@, self@.columns[i as int], "1"@),
    {
        cell_text(row, &self.columns[i], "1")
    }

    /// Whether column `i` is a member column.
    pub fn is_member_column(&self, i: usize) -> (r: bool)
        requires
            i < self@.columns.len(),
        ensures
            r == (first_sep(self@.columns[i as int]) >= 0),
    {
        match find_sep(self.columns[i].as_str()) {
            Some(_) => true,
            None => false,
        }
    }
}


impl PivotEngine {
    /// Moves a visible column onto another one. Two member columns of one group
    /// exchange their places in the group's member list; columns of two
    /// different groups exchange the whole groups. Anything else, the first
    /// (pinned) column, equal or out-of-range indices change nothing. Widths are
    /// found by column key, so every team and group keeps its own width.
    pub fn swap_visible_columns(&mut self, from_visible_idx: usize, to_visible_idx: usize)
        ensures
            final(self)@ == (PivotState {
                col_groups: swap_outcome(old(self)@, from_visible_idx, to_visible_idx),
                ..old(self)@
            }),
            state_valid(final(self)@),
            ({
                let vis = visible_spec(old(self)@.columns, old(self)@.col_groups);
                let cgs = old(self)@.col_groups;
                from_visible_idx != to_visible_idx && from_visible_idx != 0 && to_visible_idx != 0
                    && from_visible_idx < vis.len() && to_visible_idx < vis.len()
                    && vis[from_visible_idx as int].3 is Some && vis[to_visible_idx as int].3 is Some
                    && vis[from_visible_idx as int].3->0 != vis[to_visible_idx as int].3->0
                    ==> final(self)@.col_groups == cgs.update(
                        vis[from_visible_idx as int].3->0 as int,
                        cgs[vis[to_visible_idx as int].3->0 as int],
                    ).update(vis[to_visible_idx as int].3->0 as int, cgs[vis[from_visible_idx as int].3->0 as int])
            }),
            ({
                let vis = visible_spec(old(self)@.columns, old(self)@.col_groups);
                from_visible_idx == to_visible_idx || from_visible_idx == 0 || to_visible_idx == 0
                    || from_visible_idx >= vis.len() || to_visible_idx >= vis.len()
                    || vis[from_visible_idx as int].3 is None || vis[to_visible_idx as int].3 is None
                    ==> final(self)@ == old(self)@
            }),
    {
        proof {
            use_type_invariant(&*self);
            let s0 = self@;
            let vis0 = visible_spec(s0.columns, s0.col_groups);
            if from_visible_idx != to_visible_idx && from_visible_idx != 0 && to_visible_idx != 0
                && from_visible_idx < vis0.len() && to_visible_idx < vis0.len()
                && vis0[from_visible_idx as int].3 is Some && vis0[to_visible_idx as int].3 is Some
                && vis0[from_visible_idx as int].3->0 != vis0[to_visible_idx as int].3->0 {
                lemma_swap_across_groups(s0, from_visible_idx, to_visible_idx);
            } else {
                if from_visible_idx == to_visible_idx || from_visible_idx == 0 || to_visible_idx == 0
                    || from_visible_idx >= vis0.len() || to_visible_idx >= vis0.len()
                    || vis0[from_visible_idx as int].3 is None || vis0[to_visible_idx as int].3 is None {
                    lemma_swap_ignored(s0, from_visible_idx, to_visible_idx);
                }
            }
        }
        if from_visible_idx == to_visible_idx {
            return;
        }
        if from_visible_idx == 0 || to_visible_idx == 0 {
            return;
        }
        let vcs = self.visible_cols();
        if from_visible_idx >= vcs.len() || to_visible_idx >= vcs.len() {
            return;
        }
        let ghost s = self@;
        let ghost vis = visible_spec(s.columns, s.col_groups);
        let ncg = self.col_groups.len();
        proof {
            lemma_visible_group_bound(s.columns, s.col_groups, s.col_groups.len());
            let vg = visible_groups(s.columns, s.col_groups, s.col_groups.len());
            assert forall|k: int| 0 <= k < vis.len() implies (#[trigger] vis[k]).3 matches Some(g) ==> g < ncg by {
                if k >= 2 {
                    assert(vis[k] == vg[k - 2]);
                }
            }
            assert(vis[from_visible_idx as int] == vcs@[from_visible_idx as int]@);
            assert(vis[to_visible_idx as int] == vcs@[to_visible_idx as int]@);
        }
        let fvc = &vcs[from_visible_idx];
        let tvc = &vcs[to_visible_idx];
        match (fvc.col_group_idx, tvc.col_group_idx) {
            (Some(fgi), Some(tgi)) => {
                if fgi == tgi {
                    match (member_part(&fvc.key), member_part(&tvc.key)) {
                        (Some(fb), Some(tb)) => {
                            let fi = position_of(&self.col_groups[fgi].members, fb.as_str());
                            let ti = position_of(&self.col_groups[fgi].members, tb.as_str());
                            match (fi, ti) {
                                (Some(a), Some(b)) => {
                                    let mut cgs = copy_groups(&self.col_groups);
                                    let ghost before = cgs@;
                                    let mut cg = cgs.remove(fgi);
                                    let ghost old_members = texts_view(cg.members@);
                                    let ma = cg.members[a].clone();
                                    let mb = cg.members[b].clone();
                                    cg.members.set(a, mb);
                                    cg.members.set(b, ma);
                                    assert(texts_view(cg.members@) =~= swapped(old_members, a as int, b as int));
                                    cgs.insert(fgi, cg);
                                    assert(cgs@ =~= before.update(fgi as int, cg));
                                    assert(col_groups_view(cgs@) =~= swap_outcome(s, from_visible_idx, to_visible_idx));
                                    proof {
                                        lemma_swap_outcome_props(s, from_visible_idx, to_visible_idx);
                                    }
                                    self.col_groups = cgs;
                                },
                                _ => {},
                            }
                        },
                        _ => {},
                    }
                } else {
                    let mut cgs = copy_groups(&self.col_groups);
                    let ghost before = cgs@;
                    let lo = if fgi < tgi { fgi } else { tgi };
                    let hi = if fgi < tgi { tgi } else { fgi };
                    let gh = cgs.remove(hi);
                    let gl = cgs.remove(lo);
                    cgs.insert(lo, gh);
                    cgs.insert(hi, gl);
                    assert(cgs@ =~= swapped(before, fgi as int, tgi as int));
                    assert(col_groups_view(cgs@) =~= swapped(col_groups_view(before), fgi as int, tgi as int));
                    assert(col_groups_view(cgs@) =~= swap_outcome(s, from_visible_idx, to_visible_idx));
                    proof {
                        lemma_swap_outcome_props(s, from_visible_idx, to_visible_idx);
                    }
                    self.col_groups = cgs;
                }
            },
            _ => {},
        }
    }
}


proof fn lemma_row_start_increasing(groups: Seq<(Seq<char>, Seq<usize>)>, expanded: Set<usize>, h: nat, g: nat)
    requires
        h < g,
    ensures
        row_start(groups, expanded, h) < row_start(groups, expanded, g),
    decreases g,
{
    if h < g - 1 {
        lemma_row_start_increasing(groups, expanded, h, (g - 1) as nat);
    }
}

impl PivotEngine {
    /// The group whose own row is display row `slot` (counting from 0, a group
    /// row followed by its member rows when expanded), or `None` when that row
    /// is a member row or lies past the end.
    pub fn group_at_row_slot(&self, slot: usize) -> (r: Option<usize>)
        ensures
            match r {
                Some(g) => g < self@.groups.len() && row_start(self@.groups, self@.expanded, g as nat) == slot,
                None => forall|g: nat| g < self@.groups.len() ==> #[trigger] row_start(self@.groups, self@.expanded, g) != slot,
            },
    {
        let ghost gs = self@.groups;
        let ghost ex = self@.expanded;
        let mut rem = slot;
        let mut gi: usize = 0;
        while gi < self.groups.len()
            invariant
                gs == self@.groups,
                ex == self@.expanded,
                gi <= gs.len(),
                row_start(gs, ex, gi as nat) + rem == slot,
            decreases gs.len() - gi,
        {
            if rem == 0 {
                return Some(gi);
            }
            rem = rem - 1;
            if self.expanded_rows.contains(&gi) {
                let c = self.groups[gi].row_indices.len();
                assert(gs[gi as int].1.len() == c);
                if rem < c {
                    proof {
                        assert forall|g: nat| g < gs.len() implies #[trigger] row_start(gs, ex, g) != slot by {
                            if g < gi {
                                lemma_row_start_increasing(gs, ex, g, gi as nat);
                            } else if g > gi {
                                if g > gi + 1 {
                                    lemma_row_start_increasing(gs, ex, (gi + 1) as nat, g);
                                }
                            }
                        }
                    }
                    return None;
                }
                rem = rem - c;
            }
            gi = gi + 1;
        }
        proof {
            assert forall|g: nat| g < gs.len() implies #[trigger] row_start(gs, ex, g) != slot by {
                lemma_row_start_increasing(gs, ex, g, gi as nat);
            }
        }
        None
    }

    /// How many display rows there are: one per group, plus one per member row
    /// of each expanded group.
    pub fn display_row_count(&self) -> (r: u128)
        ensures
            r == row_start(self@.groups, self@.expanded, self@.groups.len()),
    {
        let ghost gs = self@.groups;
        let ghost ex = self@.expanded;
        let mut total: u128 = 0;
        let mut gi: usize = 0;
        while gi < self.groups.len()
            invariant
                gs == self@.groups,
                ex == self@.expanded,
                gi <= gs.len(),
                total == row_start(gs, ex, gi as nat),
                total <= gi * 0x1_0000_0000_0000_0000,
            decreases gs.len() - gi,
        {
            let mut step: u128 = 1;
            if self.expanded_rows.contains(&gi) {
                let c = self.groups[gi].row_indices.len();
                assert(gs[gi as int].1.len() == c);
                step = 1 + c as u128;
            }
            assert(step <= 0x1_0000_0000_0000_0000);
            assert(gi + 1 <= 0xffff_ffff_ffff_ffff);
            assert(total + step <= (gi + 1) * 0x1_0000_0000_0000_0000) by (nonlinear_arith)
                requires
                    total <= gi * 0x1_0000_0000_0000_0000,
                    step <= 0x1_0000_0000_0000_0000,
            ;
            assert((gi + 1) * 0x1_0000_0000_0000_0000 <= 0xffff_ffff_ffff_ffff * 0x1_0000_0000_0000_0000) by (nonlinear_arith)
                requires
                    gi + 1 <= 0xffff_ffff_ffff_ffff,
            ;
            total = total + step;
            gi = gi + 1;
        }
        total
    }

    /// Number of rows.
    pub fn data_len(&self) -> (r: usize)
        ensures
            r == self@.data.len(),
    {
        self.data.len()
    }

    /// Row `i`.
    pub fn row(&self, i: usize) -> (r: &DataRow)
        requires
            i < self@.data.len(),
        ensures
            r@ == self@.data[i as int],
    {
        &self.data[i]
    }

    /// Number of row groups.
    pub fn group_count(&self) -> (r: usize)
        ensures
            r == self@.groups.len(),
    {
        self.groups.len()
    }

    /// The competition of row group `gi`.
    pub fn group_competition(&self, gi: usize) -> (r: &String)
        requires
            gi < self@.groups.len(),
        ensures
            r@ == self@.groups[gi as int].0,
    {
        &self.groups[gi].competition
    }

    /// The row indices of row group `gi`, in season order.
    pub fn group_row_indices(&self, gi: usize) -> (r: &Vec<usize>)
        requires
            gi < self@.groups.len(),
        ensures
            r@ == self@.groups[gi as int].1,
            forall|k: int| 0 <= k < r@.len() ==> #[trigger] r@[k] < self@.data.len(),
    {
        let n = self.data.len();
        proof {
            use_type_invariant(self);
            let gs = self@.groups;
            let rv = self@.data;
            let c = gs[gi as int].0;
            crate::grouping::lemma_rows_with_props(rv, c, rv.len());
            assert forall|k: int| 0 <= k < gs[gi as int].1.len() implies #[trigger] gs[gi as int].1[k] < rv.len() by {
                assert(gs[gi as int].1.contains(gs[gi as int].1[k]));
            }
        }
        &self.groups[gi].row_indices
    }

    /// The key of column group `cgi`.
    pub fn col_group_key(&self, cgi: usize) -> (r: &String)
        requires
            cgi < self@.col_groups.len(),
        ensures
            r@ == self@.col_groups[cgi as int].0,
    {
        &self.col_groups[cgi].key
    }

    /// The display label of column group `cgi`.
    pub fn col_group_label(&self, cgi: usize) -> (r: &String)
        requires
            cgi < self@.col_groups.len(),
        ensures
            r@ == self@.col_groups[cgi as int].1,
    {
        &self.col_groups[cgi].label
    }

    /// The members of column group `cgi`, in display order.
    pub fn col_group_members(&self, cgi: usize) -> (r: &Vec<String>)
        requires
            cgi < self@.col_groups.len(),
        ensures
            texts_view(r@) == self@.col_groups[cgi as int].3,
    {
        &self.col_groups[cgi].members
    }

    /// The width slots a column group's header spans: its header column, then
    /// each member column when the group is expanded.
    pub fn col_group_width_slots(&self, cgi: usize) -> (r: Vec<usize>)
        requires
            cgi < self@.col_groups.len(),
        ensures
            ({
                let cg = self@.col_groups[cgi as int];
                r@ == seq![width_slot(self@.columns, cg.0)] + if cg.2 {
                    cg.3.map_values(|m: Seq<char>| width_slot(self@.columns, member_key(cg.0, m)))
                } else {
                    Seq::empty()
                }
            }),
    {
        let cg = &self.col_groups[cgi];
        let ghost cols = self@.columns;
        let ghost mapper = |m: Seq<char>| width_slot(cols, member_key(cg.key@, m));
        let mut r: Vec<usize> = Vec::new();
        r.push(find_width_slot(&self.columns, cg.key.as_str()));
        if cg.expanded {
            let mut m: usize = 0;
            while m < cg.members.len()
                invariant
                    cgi < self@.col_groups.len(),
                    cg == &self.col_groups@[cgi as int],
                    cols == self@.columns,
                    mapper == (|m: Seq<char>| width_slot(cols, member_key(cg.key@, m))),
                    m <= cg.members@.len(),
                    r@ == seq![width_slot(cols, cg.key@)] + texts_view(cg.members@).take(m as int).map_values(mapper),
                decreases cg.members@.len() - m,
            {
                let k = crate::layout::make_member_key(&cg.key, &cg.members[m]);
                let w = find_width_slot(&self.columns, k.as_str());
                let ghost before = r@;
                r.push(w);
                assert(texts_view(cg.members@).take(m + 1) =~= texts_view(cg.members@).take(m as int).push(cg.members@[m as int]@));
                assert(texts_view(cg.members@).take(m + 1).map_values(mapper) =~= texts_view(cg.members@).take(m as int).map_values(mapper).push(w));
                m = m + 1;
            }
            assert(texts_view(cg.members@).take(m as int) =~= texts_view(cg.members@));
        } else {
            assert(r@ =~= seq![width_slot(cols, cg.key@)] + Seq::<usize>::empty());
        }
        r
    }
}



/// Exchanging two members of a group keeps the column groups valid.
proof fn lemma_member_swap_valid(
    cgs: Seq<(Seq<char>, Seq<char>, bool, Seq<Seq<char>>)>,
    g: int,
    p: int,
    q: int,
)
    requires
        col_groups_valid(cgs),
        0 <= g < cgs.len(),
        0 <= p < cgs[g].3.len(),
        0 <= q < cgs[g].3.len(),
    ensures
        col_groups_valid(cgs.update(g, (cgs[g].0, cgs[g].1, cgs[g].2, swapped(cgs[g].3, p, q)))),
{
    let m = cgs[g].3;
    let m1 = swapped(m, p, q);
    let cgs1 = cgs.update(g, (cgs[g].0, cgs[g].1, cgs[g].2, m1));
    assert(m1.no_duplicates()) by {
        assert forall|a: int, b: int| 0 <= a < m1.len() && 0 <= b < m1.len() && a != b implies m1[a] != m1[b] by {
            let pa = if a == p { q } else if a == q { p } else { a };
            let pb = if b == p { q } else if b == q { p } else { b };
            assert(m1[a] == m[pa]);
            assert(m1[b] == m[pb]);
        }
    }
    assert(cgs1.len() == cgs.len());
    assert forall|h: int| 0 <= h < cgs1.len() implies {
        &&& no_colon(#[trigger] cgs1[h].0)
        &&& cgs1[h].3.no_duplicates()
        &&& cgs1[h].3.len() <= usize::MAX
    } by {
        assert(no_colon(cgs[h].0));
        if h != g {
            assert(cgs1[h] == cgs[h]);
        } else {
            assert(cgs1[h].3 == m1);
        }
    }
}

/// Texts in strictly ascending order are distinct.
proof fn lemma_ascending_distinct(m: Seq<Seq<char>>)
    requires
        strictly_ascending(m),
    ensures
        m.no_duplicates(),
{
    assert forall|i: int, j: int| 0 <= i < m.len() && 0 <= j < m.len() && i != j implies m[i] != m[j] by {
        crate::text::lemma_lex_total(m[i], m[j]);
        if i < j {
            assert(lex_lt(m[i], m[j]));
        } else {
            assert(lex_lt(m[j], m[i]));
        }
    }
}

/// Exchanging two groups keeps the column groups valid.
proof fn lemma_group_swap_valid(cgs: Seq<(Seq<char>, Seq<char>, bool, Seq<Seq<char>>)>, a: int, b: int)
    requires
        col_groups_valid(cgs),
        0 <= a < cgs.len(),
        0 <= b < cgs.len(),
    ensures
        col_groups_valid(swapped(cgs, a, b)),
{
    let c = swapped(cgs, a, b);
    assert forall|h: int| 0 <= h < c.len() implies {
        &&& no_colon(#[trigger] c[h].0)
        &&& c[h].3.no_duplicates()
        &&& c[h].3.len() <= usize::MAX
    } by {
        let ph = if h == a { b } else if h == b { a } else { h };
        assert(c[h] == cgs[ph]);
        assert(no_colon(cgs[ph].0));
    }
}

/// Toggling a group keeps the column groups valid.
proof fn lemma_toggle_valid(cgs: Seq<(Seq<char>, Seq<char>, bool, Seq<Seq<char>>)>, idx: usize)
    requires
        col_groups_valid(cgs),
    ensures
        col_groups_valid(toggled_group(cgs, idx)),
{
    let c = toggled_group(cgs, idx);
    assert forall|h: int| 0 <= h < c.len() implies {
        &&& no_colon(#[trigger] c[h].0)
        &&& c[h].3.no_duplicates()
        &&& c[h].3.len() <= usize::MAX
    } by {
        assert(no_colon(cgs[h].0));
    }
}

/// Where a visible member column `k` (at least 2) of a valid state sits: its
/// group and its member position.
proof fn lemma_member_column(
    columns: Seq<Seq<char>>,
    cgs: Seq<(Seq<char>, Seq<char>, bool, Seq<Seq<char>>)>,
    k: int,
) -> (r: (nat, int))
    requires
        col_groups_valid(cgs),
        2 <= k < visible_spec(columns, cgs).len(),
        first_sep(visible_spec(columns, cgs)[k].0) >= 0,
    ensures
        r.0 < cgs.len(),
        cgs[r.0 as int].2,
        0 <= r.1 < cgs[r.0 as int].3.len(),
        k == 2 + group_offset(cgs, r.0) + 1 + r.1,
        visible_spec(columns, cgs)[k] == (
            member_key(cgs[r.0 as int].0, cgs[r.0 as int].3[r.1]),
            cgs[r.0 as int].3[r.1],
            width_slot(columns, member_key(cgs[r.0 as int].0, cgs[r.0 as int].3[r.1])),
            Some(r.0 as usize),
        ),
{
    let n = cgs.len();
    let vis = visible_spec(columns, cgs);
    let vg = visible_groups(columns, cgs, n);
    lemma_visible_groups_index(columns, cgs, n);
    assert(vis[k] == vg[k - 2]);
    let (g, j) = lemma_visible_groups_locate(cgs, n, k - 2);
    let cg = cgs[g as int];
    assert(vg[group_offset(cgs, g) + j] == visible_group(columns, cg, g as usize)[j]);
    if j == 0 {
        assert(no_colon(cg.0));
        lemma_no_colon_no_sep(cg.0);
        assert(false);
    }
    assert(cg.2);
    (g, j - 1)
}

proof fn lemma_first_position(m: Seq<Seq<char>>, p: int)
    requires
        m.no_duplicates(),
        m.len() <= usize::MAX,
        0 <= p < m.len(),
    ensures
        m.contains(m[p]),
        width_slot(m, m[p]) == p,
{
    lemma_width_slot_found(m, m[p], p);
}

/// Exchanging two member columns of one group and then exchanging the same two
/// visible positions again restores the column groups.
pub proof fn lemma_member_swap_undone(s: PivotState, from: usize, to: usize)
    requires
        col_groups_valid(s.col_groups),
        member_swap_applies(s, from, to),
    ensures
        swap_outcome(PivotState { col_groups: swap_outcome(s, from, to), ..s }, from, to) == s.col_groups,
{
    let cols = s.columns;
    let cgs = s.col_groups;
    let vis = visible_spec(cols, cgs);
    assert(from >= 2 && to >= 2) by {
        assert(vis[1].3 is None);
    }
    let (g, p) = lemma_member_column(cols, cgs, from as int);
    let (gt, q) = lemma_member_column(cols, cgs, to as int);
    let cg = cgs[g as int];
    let m = cg.3;
    assert(gt == g);
    assert(p != q);
    lemma_member_key_split(cg.0, m[p]);
    lemma_member_key_split(cg.0, m[q]);
    lemma_first_position(m, p);
    lemma_first_position(m, q);
    let m1 = swapped(m, p, q);
    let cgs1 = cgs.update(g as int, (cg.0, cg.1, cg.2, m1));
    assert(swap_outcome(s, from, to) == cgs1);
    let s2 = PivotState { col_groups: cgs1, ..s };
    lemma_member_swap_valid(cgs, g as int, p, q);
    assert forall|h: int| 0 <= h < cgs.len() implies group_width(#[trigger] cgs1[h]) == group_width(cgs[h]) by {}
    lemma_offset_same_widths(cgs1, cgs, g);
    lemma_offset_same_widths(cgs1, cgs, cgs.len());
    lemma_visible_groups_index(cols, cgs1, cgs1.len());
    lemma_visible_groups_index(cols, cgs, cgs.len());
    let vis2 = visible_spec(cols, cgs1);
    assert(vis2.len() == vis.len());
    let vg2 = visible_groups(cols, cgs1, cgs1.len());
    assert(vis2[from as int] == vg2[from - 2]);
    assert(vis2[to as int] == vg2[to - 2]);
    assert(vg2[group_offset(cgs1, g) + (1 + p)] == visible_group(cols, cgs1[g as int], g as usize)[1 + p]);
    assert(vg2[group_offset(cgs1, g) + (1 + q)] == visible_group(cols, cgs1[g as int], g as usize)[1 + q]);
    assert(m1[p] == m[q] && m1[q] == m[p]);
    assert(vis2[from as int] == (member_key(cg.0, m[q]), m[q], width_slot(cols, member_key(cg.0, m[q])), Some(g as usize)));
    assert(vis2[to as int] == (member_key(cg.0, m[p]), m[p], width_slot(cols, member_key(cg.0, m[p])), Some(g as usize)));
    lemma_first_position(m1, p);
    lemma_first_position(m1, q);
    let again = swap_outcome(s2, from, to);
    assert(swapped(m1, p, q) =~= m);
    assert(again =~= cgs);
}


/// Exchanging two elements keeps the multiset of elements.
proof fn lemma_swapped_multiset(m: Seq<Seq<char>>, p: int, q: int)
    requires
        0 <= p < m.len(),
        0 <= q < m.len(),
    ensures
        swapped(m, p, q).to_multiset() == m.to_multiset(),
        swapped(m, p, q).len() == m.len(),
{
    broadcast use {
        vstd::seq_lib::to_multiset_update,
        vstd::seq_lib::to_multiset_contains,
        vstd::multiset::group_multiset_properties,
        vstd::multiset::group_multiset_axioms,
    };
    if p != q {
        let m1 = m.update(p, m[q]);
        assert(m1[q] == m[q]);
        assert(m1.to_multiset() == m.to_multiset().insert(m[q]).remove(m[p]));
        assert(m1.update(q, m[p]).to_multiset() == m1.to_multiset().insert(m[p]).remove(m[q]));
        let mm = m.to_multiset();
        let a = m[p];
        let b = m[q];
        assert(m.contains(a) && m.contains(b));
        assert(mm.count(a) > 0 && mm.count(b) > 0);
        let m2 = mm.insert(b).remove(a).insert(a).remove(b);
        assert forall|x: Seq<char>| m2.count(x) == mm.count(x) by {}
        assert(m2 =~= mm);
        assert(m1.update(q, m[p]).to_multiset() == m2);
    } else {
        assert(swapped(m, p, q) =~= m);
    }
}

/// Every column group of `a` appears in `b` with the same key, label,
/// expansion and multiset of members.
pub open spec fn groups_kept(
    a: Seq<(Seq<char>, Seq<char>, bool, Seq<Seq<char>>)>,
    b: Seq<(Seq<char>, Seq<char>, bool, Seq<Seq<char>>)>,
) -> bool {
    forall|g: int| 0 <= g < a.len() ==> exists|h: int| 0 <= h < b.len() && {
        &&& #[trigger] b[h].0 == #[trigger] a[g].0
        &&& b[h].1 == a[g].1
        &&& b[h].2 == a[g].2
        &&& b[h].3.to_multiset() == a[g].3.to_multiset()
    }
}

/// A swap keeps the engine valid, keeps the number of column groups and of
/// visible columns, and keeps every group's key, label, expansion and multiset
/// of members.
pub proof fn lemma_swap_outcome_props(s: PivotState, from: usize, to: usize)
    requires
        state_valid(s),
    ensures
        state_valid(PivotState { col_groups: swap_outcome(s, from, to), ..s }),
        swap_outcome(s, from, to).len() == s.col_groups.len(),
        groups_kept(s.col_groups, swap_outcome(s, from, to)),
        visible_spec(s.columns, swap_outcome(s, from, to)).len() == visible_spec(s.columns, s.col_groups).len(),
{
    let cgs = s.col_groups;
    let n = swap_outcome(s, from, to);
    let vis = visible_spec(s.columns, cgs);
    lemma_visible_group_bound(s.columns, cgs, cgs.len());
    let vg = visible_groups(s.columns, cgs, cgs.len());
    assert forall|k: int| 0 <= k < vis.len() implies (#[trigger] vis[k]).3 matches Some(g) ==> g < cgs.len() by {
        if k >= 2 {
            assert(vis[k] == vg[k - 2]);
        }
    }
    if n == cgs {
        assert(groups_kept(cgs, n)) by {
            assert forall|g: int| 0 <= g < cgs.len() implies exists|h: int| 0 <= h < n.len() && {
                &&& #[trigger] n[h].0 == #[trigger] cgs[g].0
                &&& n[h].1 == cgs[g].1
                &&& n[h].2 == cgs[g].2
                &&& n[h].3.to_multiset() == cgs[g].3.to_multiset()
            } by {
                assert(n[g] == cgs[g]);
            }
        }
    } else if !(from == to || from == 0 || to == 0 || from >= vis.len() || to >= vis.len()) {
        let f = vis[from as int];
        let t = vis[to as int];
        let fg = f.3->0;
        let tg = t.3->0;
        assert(f.3 is Some && t.3 is Some);
        assert(fg < cgs.len() && tg < cgs.len());
        if fg == tg {
            let cg = cgs[fg as int];
            let fb = key_member(f.0);
            let tb = key_member(t.0);
            assert(cg.3.contains(fb) && cg.3.contains(tb));
            lemma_width_slot_in(cg.3, fb);
            lemma_width_slot_in(cg.3, tb);
            let p = width_slot(cg.3, fb) as int;
            let q = width_slot(cg.3, tb) as int;
            let m1 = swapped(cg.3, p, q);
            assert(n == cgs.update(fg as int, (cg.0, cg.1, cg.2, m1)));
            lemma_member_swap_valid(cgs, fg as int, p, q);
            lemma_swapped_multiset(cg.3, p, q);
            assert forall|x: Seq<char>| m1.contains(x) <==> cg.3.contains(x) by {
                if m1.contains(x) {
                    let i = choose|i: int| 0 <= i < m1.len() && m1[i] == x;
                    if i == p {
                        assert(cg.3[q] == x);
                    } else if i == q {
                        assert(cg.3[p] == x);
                    } else {
                        assert(cg.3[i] == x);
                    }
                }
                if cg.3.contains(x) {
                    let i = choose|i: int| 0 <= i < cg.3.len() && cg.3[i] == x;
                    if i == p {
                        assert(m1[q] == x);
                    } else if i == q {
                        assert(m1[p] == x);
                    } else {
                        assert(m1[i] == x);
                    }
                }
            }
            assert forall|g: int| 0 <= g < cgs.len() implies exists|h: int| 0 <= h < n.len() && {
                &&& #[trigger] n[h].0 == #[trigger] cgs[g].0
                &&& n[h].1 == cgs[g].1
                &&& n[h].2 == cgs[g].2
                &&& n[h].3.to_multiset() == cgs[g].3.to_multiset()
            } by {
                assert(n[g].0 == cgs[g].0);
            }
            assert forall|k: Seq<char>| is_column_key(n, k) <==> is_column_key(cgs, k) by {
                assert(n[0].3.contains(key_member(k)) <==> cgs[0].3.contains(key_member(k)));
                assert(n[1].3.contains(key_member(k)) <==> cgs[1].3.contains(key_member(k)));
            }
            assert forall|h: int| 0 <= h < cgs.len() implies group_width(#[trigger] n[h]) == group_width(cgs[h]) by {}
            lemma_offset_same_widths(n, cgs, cgs.len());
            lemma_visible_groups_index(s.columns, n, n.len());
            lemma_visible_groups_index(s.columns, cgs, cgs.len());
        } else {
            assert(n == swapped(cgs, fg as int, tg as int));
            lemma_group_swap_valid(cgs, fg as int, tg as int);
            assert forall|g: int| 0 <= g < cgs.len() implies exists|h: int| 0 <= h < n.len() && {
                &&& #[trigger] n[h].0 == #[trigger] cgs[g].0
                &&& n[h].1 == cgs[g].1
                &&& n[h].2 == cgs[g].2
                &&& n[h].3.to_multiset() == cgs[g].3.to_multiset()
            } by {
                let h = if g == fg { tg as int } else if g == tg { fg as int } else { g };
                assert(n[h] == cgs[g]);
            }
            assert forall|k: Seq<char>| is_column_key(n, k) <==> is_column_key(cgs, k) by {
                assert(fg == 0 || fg == 1);
                assert(tg == 0 || tg == 1);
            }
            lemma_swapped_widths_offset(cgs, fg as int, tg as int);
            lemma_visible_groups_index(s.columns, n, n.len());
            lemma_visible_groups_index(s.columns, cgs, cgs.len());
        }
    }
}

/// Exchanging the two groups leaves the total width of the visible columns alone.
proof fn lemma_swapped_widths_offset(cgs: Seq<(Seq<char>, Seq<char>, bool, Seq<Seq<char>>)>, a: int, b: int)
    requires
        cgs.len() == 2,
        0 <= a < 2,
        0 <= b < 2,
    ensures
        group_offset(swapped(cgs, a, b), 2) == group_offset(cgs, 2),
{
    let n = swapped(cgs, a, b);
    assert(group_offset(n, 0) == 0);
    assert(group_offset(n, 1) == group_offset(n, 0) + group_width(n[0]));
    assert(group_offset(n, 2) == group_width(n[0]) + group_width(n[1]));
    assert(group_offset(cgs, 0) == 0);
    assert(group_offset(cgs, 1) == group_offset(cgs, 0) + group_width(cgs[0]));
    assert(group_offset(cgs, 2) == group_width(cgs[0]) + group_width(cgs[1]));
}


/// Where the visible column at `k` (past competition and season) comes from:
/// group `r.0`, place `r.1` within it; place 0 is the group's header, place
/// `i > 0` its member `i - 1`.
proof fn lemma_visible_entry(s: PivotState, k: int) -> (r: (nat, int))
    requires
        state_valid(s),
        2 <= k < visible_spec(s.columns, s.col_groups).len(),
    ensures
        r.0 < 2,
        0 <= r.1 < group_width(s.col_groups[r.0 as int]),
        k == 2 + group_offset(s.col_groups, r.0) + r.1,
        r.1 > 0 ==> r.1 - 1 < s.col_groups[r.0 as int].3.len(),
        visible_spec(s.columns, s.col_groups)[k].0 == if r.1 == 0 {
            s.col_groups[r.0 as int].0
        } else {
            member_key(s.col_groups[r.0 as int].0, s.col_groups[r.0 as int].3[r.1 - 1])
        },
{
    let cgs = s.col_groups;
    let vis = visible_spec(s.columns, cgs);
    let vg = visible_groups(s.columns, cgs, cgs.len());
    lemma_visible_groups_index(s.columns, cgs, cgs.len());
    assert(vis[k] == vg[k - 2]);
    let r = lemma_visible_groups_locate(cgs, cgs.len(), k - 2);
    let g = r.0;
    let j = r.1;
    let cg = cgs[g as int];
    let one = visible_group(s.columns, cg, g as usize);
    assert(vg[group_offset(cgs, g) + j] == one[j]);
    if j > 0 {
        assert(cg.2);
        assert(one[j] == (member_key(cg.0, cg.3[j - 1]), cg.3[j - 1], width_slot(s.columns, member_key(cg.0, cg.3[j - 1])), Some(g as usize)));
    }
    r
}

/// Every visible column key is a key of the column list.
proof fn lemma_visible_keys_listed(s: PivotState, k: int)
    requires
        state_valid(s),
        0 <= k < visible_spec(s.columns, s.col_groups).len(),
    ensures
        is_column_key(s.col_groups, visible_spec(s.columns, s.col_groups)[k].0),
{
    let cgs = s.col_groups;
    if k >= 2 {
        let r = lemma_visible_entry(s, k);
        let cg = cgs[r.0 as int];
        let key = visible_spec(s.columns, cgs)[k].0;
        if r.1 > 0 {
            assert(no_colon(cg.0));
            lemma_member_key_split(cg.0, cg.3[r.1 - 1]);
            assert(cg.3.contains(cg.3[r.1 - 1]));
        }
        assert(group_has_column(cg, key));
        assert(r.0 == 0 || r.0 == 1);
    }
}

/// No two visible columns have the same key.
proof fn lemma_visible_keys_distinct(s: PivotState, a: int, b: int)
    requires
        state_valid(s),
        0 <= a < visible_spec(s.columns, s.col_groups).len(),
        0 <= b < visible_spec(s.columns, s.col_groups).len(),
        a != b,
    ensures
        visible_spec(s.columns, s.col_groups)[a].0 != visible_spec(s.columns, s.col_groups)[b].0,
{
    let cgs = s.col_groups;
    let vis = visible_spec(s.columns, cgs);
    lemma_fixed_names();
    lemma_no_colon_no_sep("competition"@);
    lemma_no_colon_no_sep("season"@);
    assert(no_colon(cgs[0].0));
    assert(no_colon(cgs[1].0));
    lemma_no_colon_no_sep(cgs[0].0);
    lemma_no_colon_no_sep(cgs[1].0);
    if a >= 2 && b >= 2 {
        let ra = lemma_visible_entry(s, a);
        let rb = lemma_visible_entry(s, b);
        let ca = cgs[ra.0 as int];
        let cb = cgs[rb.0 as int];
        if ra.1 > 0 {
            lemma_member_key_split(ca.0, ca.3[ra.1 - 1]);
        }
        if rb.1 > 0 {
            lemma_member_key_split(cb.0, cb.3[rb.1 - 1]);
        }
        if ra.0 == rb.0 && ra.1 > 0 && rb.1 > 0 {
            assert(ra.1 != rb.1);
            assert(ca.3.no_duplicates());
        }
    } else if a >= 2 || b >= 2 {
        let (x, y) = if a >= 2 { (a, b) } else { (b, a) };
        let rx = lemma_visible_entry(s, x);
        let cx = cgs[rx.0 as int];
        if rx.1 > 0 {
            lemma_member_key_split(cx.0, cx.3[rx.1 - 1]);
        }
        assert(vis[y].0 == "competition"@ || vis[y].0 == "season"@);
        assert(rx.0 == 0 || rx.0 == 1);
    }
}

/// After the column list is built, every visible column finds its own key in
/// it, and no two visible columns share a width slot.
pub proof fn lemma_visible_slots(s: PivotState)
    requires
        state_valid(s),
        s.columns.len() > 0,
        s.columns.len() <= usize::MAX,
    ensures
        forall|k: int| 0 <= k < visible_spec(s.columns, s.col_groups).len() ==> {
            &&& (#[trigger] visible_spec(s.columns, s.col_groups)[k]).2 < s.columns.len()
            &&& s.columns[visible_spec(s.columns, s.col_groups)[k].2 as int] == visible_spec(s.columns, s.col_groups)[k].0
        },
        forall|a: int, b: int|
            0 <= a < visible_spec(s.columns, s.col_groups).len() && 0 <= b < visible_spec(s.columns, s.col_groups).len()
                && a != b ==> (#[trigger] visible_spec(s.columns, s.col_groups)[a]).2 != (#[trigger] visible_spec(s.columns, s.col_groups)[b]).2,
{
    let vis = visible_spec(s.columns, s.col_groups);
    assert forall|k: int| 0 <= k < vis.len() implies {
        &&& (#[trigger] vis[k]).2 < s.columns.len()
        &&& s.columns[vis[k].2 as int] == vis[k].0
    } by {
        lemma_visible_slot_one(s, k);
    }
    assert forall|a: int, b: int| 0 <= a < vis.len() && 0 <= b < vis.len() && a != b implies (#[trigger] vis[a]).2 != (#[trigger] vis[b]).2 by {
        lemma_visible_slot_one(s, a);
        lemma_visible_slot_one(s, b);
        lemma_visible_keys_distinct(s, a, b);
    }
}

/// The width slot of one visible column holds that column's key.
proof fn lemma_visible_slot_one(s: PivotState, k: int)
    requires
        state_valid(s),
        s.columns.len() > 0,
        s.columns.len() <= usize::MAX,
        0 <= k < visible_spec(s.columns, s.col_groups).len(),
    ensures
        visible_spec(s.columns, s.col_groups)[k].2 < s.columns.len(),
        s.columns[visible_spec(s.columns, s.col_groups)[k].2 as int] == visible_spec(s.columns, s.col_groups)[k].0,
{
    let vis = visible_spec(s.columns, s.col_groups);
    lemma_visible_keys_listed(s, k);
    assert(s.columns.contains(vis[k].0));
    lemma_width_slot_in(s.columns, vis[k].0);
    if k >= 2 {
        let r = lemma_visible_entry(s, k);
        let cgs = s.col_groups;
        let vg = visible_groups(s.columns, cgs, cgs.len());
        lemma_visible_groups_index(s.columns, cgs, cgs.len());
        assert(vis[k] == vg[k - 2]);
        let cg = cgs[r.0 as int];
        let one = visible_group(s.columns, cg, r.0 as usize);
        assert(vg[group_offset(cgs, r.0) + r.1] == one[r.1]);
        if r.1 > 0 {
            assert(one[r.1].2 == width_slot(s.columns, member_key(cg.0, cg.3[r.1 - 1])));
        }
    }
}

/// The state after loading rows is determined by the rows: an engine built
/// by `new` and one reset by `update_data` with the same rows agree, as long
/// as season order is transitive within each competition.
pub proof fn lemma_fresh_state_unique(a: PivotState, b: PivotState, rows: Seq<Map<Seq<char>, Seq<char>>>)
    requires
        fresh_state(a, rows),
        fresh_state(b, rows),
        seasons_transitive(rows),
        rows.len() <= usize::MAX,
    ensures
        a == b,
{
    lemma_groups_unique(rows, a.groups, b.groups);
    lemma_members_unique(rows, "winner"@, a.col_groups[0].3, b.col_groups[0].3);
    lemma_members_unique(rows, "runner_up"@, a.col_groups[1].3, b.col_groups[1].3);
    assert(a.col_groups[0] == b.col_groups[0]);
    assert(a.col_groups[1] == b.col_groups[1]);
    assert(a.col_groups =~= b.col_groups);
    assert(a.expanded =~= b.expanded);
    assert(a.columns =~= b.columns);
}

/// No visible column has an empty label: the fixed columns and the two
/// groups have fixed labels, and member names are never empty.
pub proof fn lemma_visible_labels_nonempty(s: PivotState, k: int)
    requires
        state_valid(s),
        0 <= k < visible_spec(s.columns, s.col_groups).len(),
    ensures
        visible_spec(s.columns, s.col_groups)[k].1.len() > 0,
{
    reveal_strlit("competition");
    reveal_strlit("season");
    reveal_strlit("Winner");
    reveal_strlit("Runner Up");
    let cgs = s.col_groups;
    let vis = visible_spec(s.columns, cgs);
    if k >= 2 {
        let r = lemma_visible_entry(s, k);
        let vg = visible_groups(s.columns, cgs, cgs.len());
        lemma_visible_groups_index(s.columns, cgs, cgs.len());
        assert(vis[k] == vg[k - 2]);
        let cg = cgs[r.0 as int];
        let one = visible_group(s.columns, cg, r.0 as usize);
        assert(vg[group_offset(cgs, r.0) + r.1] == one[r.1]);
        if r.1 > 0 {
            assert(one[r.1].1 == cg.3[r.1 - 1]);
            assert(cg.3[r.1 - 1].len() > 0);
        } else {
            assert(one[0].1 == cg.1);
            assert(cg.1 == label_for(cg.0));
        }
    }
}

/// Moving a column of one column group onto a column of another group, be it
/// a header or a member column, exchanges the two whole groups.
pub proof fn lemma_swap_across_groups(s: PivotState, from: usize, to: usize)
    requires
        from != to,
        from != 0,
        to != 0,
        from < visible_spec(s.columns, s.col_groups).len(),
        to < visible_spec(s.columns, s.col_groups).len(),
        visible_spec(s.columns, s.col_groups)[from as int].3 is Some,
        visible_spec(s.columns, s.col_groups)[to as int].3 is Some,
        visible_spec(s.columns, s.col_groups)[from as int].3->0 != visible_spec(s.columns, s.col_groups)[to as int].3->0,
    ensures
        swap_outcome(s, from, to) == s.col_groups.update(
            visible_spec(s.columns, s.col_groups)[from as int].3->0 as int,
            s.col_groups[visible_spec(s.columns, s.col_groups)[to as int].3->0 as int],
        ).update(
            visible_spec(s.columns, s.col_groups)[to as int].3->0 as int,
            s.col_groups[visible_spec(s.columns, s.col_groups)[from as int].3->0 as int],
        ),
{
}

/// Moving a member column onto another member column of the same group
/// exchanges the two members in that group's list and changes nothing else.
pub proof fn lemma_swap_within_group(s: PivotState, from: usize, to: usize, p: int, q: int)
    requires
        state_valid(s),
        from != to,
        from != 0,
        to != 0,
        from < visible_spec(s.columns, s.col_groups).len(),
        to < visible_spec(s.columns, s.col_groups).len(),
        visible_spec(s.columns, s.col_groups)[from as int].3 is Some,
        visible_spec(s.columns, s.col_groups)[to as int].3 == visible_spec(s.columns, s.col_groups)[from as int].3,
        first_sep(visible_spec(s.columns, s.col_groups)[from as int].0) >= 0,
        first_sep(visible_spec(s.columns, s.col_groups)[to as int].0) >= 0,
        0 <= p < s.col_groups[visible_spec(s.columns, s.col_groups)[from as int].3->0 as int].3.len(),
        0 <= q < s.col_groups[visible_spec(s.columns, s.col_groups)[from as int].3->0 as int].3.len(),
        s.col_groups[visible_spec(s.columns, s.col_groups)[from as int].3->0 as int].3[p]
            == key_member(visible_spec(s.columns, s.col_groups)[from as int].0),
        s.col_groups[visible_spec(s.columns, s.col_groups)[from as int].3->0 as int].3[q]
            == key_member(visible_spec(s.columns, s.col_groups)[to as int].0),
    ensures
        swap_outcome(s, from, to) == ({
            let g = visible_spec(s.columns, s.col_groups)[from as int].3->0 as int;
            let cg = s.col_groups[g];
            s.col_groups.update(g, (cg.0, cg.1, cg.2, cg.3.update(p, cg.3[q]).update(q, cg.3[p])))
        }),
{
    let vis = visible_spec(s.columns, s.col_groups);
    let g = vis[from as int].3->0 as int;
    lemma_visible_group_bound(s.columns, s.col_groups, s.col_groups.len());
    let vg = visible_groups(s.columns, s.col_groups, s.col_groups.len());
    assert(vis[from as int] == vg[from - 2]);
    assert(g < s.col_groups.len());
    let cg = s.col_groups[g];
    assert(cg.3.no_duplicates() && cg.3.len() <= usize::MAX);
    lemma_first_position(cg.3, p);
    lemma_first_position(cg.3, q);
}

/// Moves onto or from the pinned first column, between equal positions, past
/// the end, involving a column outside the column groups, or between a header
/// and a column of its own group change nothing.
pub proof fn lemma_swap_ignored(s: PivotState, from: usize, to: usize)
    requires
        ({
            let vis = visible_spec(s.columns, s.col_groups);
            ||| from == to
            ||| from == 0
            ||| to == 0
            ||| from >= vis.len()
            ||| to >= vis.len()
            ||| vis[from as int].3 is None
            ||| vis[to as int].3 is None
            ||| vis[from as int].3 == vis[to as int].3 && (first_sep(vis[from as int].0) < 0 || first_sep(
                vis[to as int].0,
            ) < 0)
        }),
    ensures
        swap_outcome(s, from, to) == s.col_groups,
{
}

} // verus!
