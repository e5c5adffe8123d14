//! Column groups, the column list, the visible columns and cell texts.

use vstd::prelude::*;

use crate::grouping::{field_text, texts_view};
use crate::row::DataRow;
use crate::text::text_eq;

verus! {

/// The characters that join a group key and a member name in a column key.
pub open spec fn separator() -> Seq<char> {
    seq![':', ':']
}

/// The column key of `member` within the group `group_key`.
pub open spec fn member_key(group_key: Seq<char>, member: Seq<char>) -> Seq<char> {
    group_key + separator() + member
}

/// Position of the first `::` in `s`, or -1.
pub open spec fn first_sep(s: Seq<char>) -> int
    decreases s.len(),
{
    if s.len() < 2 {
        -1
    } else if s[0] == ':' && s[1] == ':' {
        0
    } else {
        let r = first_sep(s.drop_first());
        if r < 0 {
            -1
        } else {
            r + 1
        }
    }
}

/// The part of a column key before its first `::`.
pub open spec fn key_group(s: Seq<char>) -> Seq<char> {
    s.take(first_sep(s))
}

/// The part of a column key after its first `::`.
pub open spec fn key_member(s: Seq<char>) -> Seq<char> {
    s.skip(first_sep(s) + 2)
}

/// The label a column is measured by: for a member column, the text between
/// the first `::` and the next one; otherwise the key itself.
pub open spec fn column_label_spec(col: Seq<char>) -> Seq<char> {
    if first_sep(col) >= 0 {
        let rest = key_member(col);
        if first_sep(rest) >= 0 {
            rest.take(first_sep(rest))
        } else {
            rest
        }
    } else {
        col
    }
}

/// The text of a cell: for a member column, `mark` when the row's value in the
/// group column is that member and empty otherwise; for any other column, the
/// row's value there (empty when missing).
pub open spec fn cell_spec(row: Map<Seq<char>, Seq<char>>, key: Seq<char>, mark: Seq<char>) -> Seq<char> {
    if first_sep(key) >= 0 {
        if row.contains_key(key_group(key)) && row[key_group(key)] == key_member(key) {
            mark
        } else {
            Seq::empty()
        }
    } else {
        field_text(row, key)
    }
}

/// Index of the first occurrence of `k` in `s`, or 0 when it does not occur.
pub open spec fn width_slot(s: Seq<Seq<char>>, k: Seq<char>) -> usize
    decreases s.len(),
{
    if s.len() == 0 {
        0
    } else if s.drop_last().contains(k) {
        width_slot(s.drop_last(), k)
    } else if s.last() == k {
        (s.len() - 1) as usize
    } else {
        0
    }
}

/// A collapsible column group: a header column followed by one column per member.
pub struct ColGroup {
    pub key: String,
    pub label: String,
    pub expanded: bool,
    pub members: Vec<String>,
}

impl View for ColGroup {
    type V = (Seq<char>, Seq<char>, bool, Seq<Seq<char>>);

    open spec fn view(&self) -> (Seq<char>, Seq<char>, bool, Seq<Seq<char>>) {
        (self.key@, self.label@, self.expanded, texts_view(self.members@))
    }
}

pub open spec fn col_groups_view(g: Seq<ColGroup>) -> Seq<(Seq<char>, Seq<char>, bool, Seq<Seq<char>>)> {
    g.map_values(|c: ColGroup| c@)
}

/// The columns of one group: its header, then its members.
pub open spec fn group_columns(cg: (Seq<char>, Seq<char>, bool, Seq<Seq<char>>)) -> Seq<Seq<char>> {
    seq![cg.0] + cg.3.map_values(|m: Seq<char>| member_key(cg.0, m))
}

pub open spec fn columns_of_groups(cgs: Seq<(Seq<char>, Seq<char>, bool, Seq<Seq<char>>)>) -> Seq<Seq<char>>
    decreases cgs.len(),
{
    if cgs.len() == 0 {
        Seq::empty()
    } else {
        columns_of_groups(cgs.drop_last()) + group_columns(cgs.last())
    }
}

/// All columns: competition, season, then each group's header and members.
pub open spec fn columns_spec(cgs: Seq<(Seq<char>, Seq<char>, bool, Seq<Seq<char>>)>) -> Seq<Seq<char>> {
    seq!["competition"@, "season"@] + columns_of_groups(cgs)
}

/// A visible column: its key, its label, its width slot and its group.
pub struct VisCol {
    pub key: String,
    pub label: String,
    pub width_idx: usize,
    pub col_group_idx: Option<usize>,
}

impl View for VisCol {
    type V = (Seq<char>, Seq<char>, usize, Option<usize>);

    open spec fn view(&self) -> (Seq<char>, Seq<char>, usize, Option<usize>) {
        (self.key@, self.label@, self.width_idx, self.col_group_idx)
    }
}

pub open spec fn vis_cols_view(v: Seq<VisCol>) -> Seq<(Seq<char>, Seq<char>, usize, Option<usize>)> {
    v.map_values(|c: VisCol| c@)
}

/// The visible columns of one group: its header, then its members when expanded.
pub open spec fn visible_group(
    columns: Seq<Seq<char>>,
    cg: (Seq<char>, Seq<char>, bool, Seq<Seq<char>>),
    gi: usize,
) -> Seq<(Seq<char>, Seq<char>, usize, Option<usize>)> {
    seq![(cg.0, cg.1, width_slot(columns, cg.0), Some(gi))] + if cg.2 {
        cg.3.map_values(
            |m: Seq<char>| (member_key(cg.0, m), m, width_slot(columns, member_key(cg.0, m)), Some(gi)),
        )
    } else {
        Seq::empty()
    }
}

pub open spec fn visible_groups(
    columns: Seq<Seq<char>>,
    cgs: Seq<(Seq<char>, Seq<char>, bool, Seq<Seq<char>>)>,
    n: nat,
) -> Seq<(Seq<char>, Seq<char>, usize, Option<usize>)>
    decreases n,
{
    if n == 0 {
        Seq::empty()
    } else {
        visible_groups(columns, cgs, (n - 1) as nat) + visible_group(columns, cgs[n - 1], (n - 1) as usize)
    }
}

/// The visible columns: competition, season, then each group.
pub open spec fn visible_spec(
    columns: Seq<Seq<char>>,
    cgs: Seq<(Seq<char>, Seq<char>, bool, Seq<Seq<char>>)>,
) -> Seq<(Seq<char>, Seq<char>, usize, Option<usize>)> {
    seq![
        ("competition"@, "competition"@, width_slot(columns, "competition"@), None),
        ("season"@, "season"@, width_slot(columns, "season"@), None),
    ] + visible_groups(columns, cgs, cgs.len())
}

pub proof fn lemma_width_slot_found(s: Seq<Seq<char>>, k: Seq<char>, i: int)
    requires
        s.len() <= usize::MAX,
        0 <= i < s.len(),
        s[i] == k,
        forall|j: int| 0 <= j < i ==> s[j] != k,
    ensures
        width_slot(s, k) == i,
    decreases s.len(),
{
    if i < s.len() - 1 {
        assert(s.drop_last()[i] == k);
        assert(s.drop_last().contains(k));
        assert forall|j: int| 0 <= j < i implies s.drop_last()[j] != k by {
            assert(s.drop_last()[j] == s[j]);
        }
        lemma_width_slot_found(s.drop_last(), k, i);
        assert(width_slot(s, k) == width_slot(s.drop_last(), k));
    } else {
        assert(!s.drop_last().contains(k)) by {
            if s.drop_last().contains(k) {
                let j = choose|j: int| 0 <= j < s.len() - 1 && s.drop_last()[j] == k;
                assert(s[j] == k);
            }
        }
    }
}

proof fn lemma_width_slot_absent(s: Seq<Seq<char>>, k: Seq<char>)
    requires
        forall|j: int| 0 <= j < s.len() ==> s[j] != k,
    ensures
        width_slot(s, k) == 0,
    decreases s.len(),
{
    if s.len() > 0 {
        assert(!s.drop_last().contains(k)) by {
            if s.drop_last().contains(k) {
                let j = choose|j: int| 0 <= j < s.len() - 1 && s.drop_last()[j] == k;
                assert(s[j] == k);
            }
        }
    }
}

/// The slot of `col` in `columns`: its first position, or 0 when absent.
pub fn find_width_slot(columns: &Vec<String>, col: &str) -> (r: usize)
    ensures
        r == width_slot(texts_view(columns@), col@),
{
    let ghost cv = texts_view(columns@);
    let mut i: usize = 0;
    let n = columns.len();
    while i < columns.len()
        invariant
            cv == texts_view(columns@),
            n == columns@.len(),
            cv.len() == n,
            i <= columns@.len(),
            forall|j: int| 0 <= j < i ==> cv[j] != col@,
        decreases columns@.len() - i,
    {
        if text_eq(columns[i].as_str(), col) {
            proof {
                lemma_width_slot_found(cv, col@, i as int);
            }
            return i;
        }
        i = i + 1;
    }
    proof {
        lemma_width_slot_absent(cv, col@);
    }
    0
}

pub proof fn lemma_first_sep_bounds(s: Seq<char>)
    ensures
        first_sep(s) >= -1,
        first_sep(s) >= 0 ==> first_sep(s) + 2 <= s.len() && s[first_sep(s)] == ':' && s[first_sep(s) + 1] == ':',
        first_sep(s) >= 0 ==> forall|j: int| 0 <= j < first_sep(s) ==> !(#[trigger] s[j] == ':' && s[j + 1] == ':'),
        first_sep(s) < 0 ==> forall|j: int| 0 <= j && j + 1 < s.len() ==> !(#[trigger] s[j] == ':' && s[j + 1] == ':'),
    decreases s.len(),
{
    if s.len() >= 2 && !(s[0] == ':' && s[1] == ':') {
        let t = s.drop_first();
        lemma_first_sep_bounds(t);
        assert forall|j: int| 1 <= j && j + 1 < s.len() implies #[trigger] s[j] == t[j - 1] && s[j + 1] == t[j] by {}
    }
}

/// Position of the first occurrence of `x` in `v`, if any.
pub fn position_of(v: &Vec<String>, x: &str) -> (r: Option<usize>)
    ensures
        match r {
            Some(i) => texts_view(v@).contains(x@) && i == width_slot(texts_view(v@), x@) && i < v@.len(),
            None => !texts_view(v@).contains(x@),
        },
{
    let ghost tv = texts_view(v@);
    let mut i: usize = 0;
    let n = v.len();
    while i < v.len()
        invariant
            tv == texts_view(v@),
            n == v@.len(),
            tv.len() == n,
            i <= n,
            forall|j: int| 0 <= j < i ==> tv[j] != x@,
        decreases n - i,
    {
        if text_eq(v[i].as_str(), x) {
            proof {
                lemma_width_slot_found(tv, x@, i as int);
                assert(tv[i as int] == x@);
            }
            return Some(i);
        }
        i = i + 1;
    }
    None
}

/// In the visible columns, every group index names an existing group.
pub proof fn lemma_visible_group_bound(
    columns: Seq<Seq<char>>,
    cgs: Seq<(Seq<char>, Seq<char>, bool, Seq<Seq<char>>)>,
    n: nat,
)
    requires
        n <= cgs.len(),
        cgs.len() <= usize::MAX,
    ensures
        forall|k: int| 0 <= k < visible_groups(columns, cgs, n).len() ==>
            ((#[trigger] visible_groups(columns, cgs, n)[k]).3 matches Some(g) && g < n),
    decreases n,
{
    if n > 0 {
        lemma_visible_group_bound(columns, cgs, (n - 1) as nat);
        let prev = visible_groups(columns, cgs, (n - 1) as nat);
        let cur = visible_groups(columns, cgs, n);
        let vg = visible_group(columns, cgs[n - 1], (n - 1) as usize);
        assert forall|k: int| 0 <= k < cur.len() implies ((#[trigger] cur[k]).3 matches Some(g) && g < n) by {
            if k < prev.len() {
                assert(cur[k] == prev[k]);
            } else {
                assert(cur[k] == vg[k - prev.len()]);
            }
        }
    }
}

/// Position of the first `::` in `s`.
pub fn find_sep(s: &str) -> (r: Option<usize>)
    ensures
        match r {
            Some(i) => first_sep(s@) == i,
            None => first_sep(s@) < 0,
        },
{
    proof {
        lemma_first_sep_bounds(s@);
    }
    let n = s.unicode_len();
    if n < 2 {
        return None;
    }
    let mut i: usize = 0;
    while i + 1 < n
        invariant
            n == s@.len(),
            n >= 2,
            i + 1 <= n,
            forall|j: int| 0 <= j < i ==> !(#[trigger] s@[j] == ':' && s@[j + 1] == ':'),
        decreases n - i,
    {
        if s.get_char(i) == ':' && s.get_char(i + 1) == ':' {
            proof {
                lemma_first_sep_bounds(s@);
                let f = first_sep(s@);
                assert(s@[i as int] == ':' && s@[i + 1] == ':');
                if f >= 0 && f < i {
                    assert(!(s@[f] == ':' && s@[f + 1] == ':'));
                }
                if f > i {
                    assert(!(s@[i as int] == ':' && s@[i + 1] == ':'));
                }
                if f < 0 {
                    assert(!(s@[i as int] == ':' && s@[i + 1] == ':'));
                }
            }
            return Some(i);
        }
        i = i + 1;
    }
    proof {
        lemma_first_sep_bounds(s@);
        let f = first_sep(s@);
        if f >= 0 {
            assert(!(s@[f] == ':' && s@[f + 1] == ':'));
        }
    }
    None
}

/// The member part of a member column key, if the key has one.
pub fn member_part(key: &String) -> (r: Option<String>)
    ensures
        match r {
            Some(m) => first_sep(key@) >= 0 && m@ == key_member(key@),
            None => first_sep(key@) < 0,
        },
{
    proof {
        lemma_first_sep_bounds(key@);
    }
    match find_sep(key.as_str()) {
        Some(i) => {
            let n = key.as_str().unicode_len();
            let member = key.as_str().substring_char(i + 2, n);
            assert(member@ =~= key_member(key@));
            Some(String::from_str(member))
        },
        None => None,
    }
}

/// Builds the key of a member column.
pub fn make_member_key(group_key: &String, member: &String) -> (k: String)
    ensures
        k@ == member_key(group_key@, member@),
{
    let mut k = group_key.clone();
    k.append("::");
    proof {
        reveal_strlit("::");
    }
    k.append(member.as_str());
    k
}

/// The cell text of `row` in the column `key`, using `mark` for a member hit.
pub fn cell_text(row: &DataRow, key: &String, mark: &str) -> (r: String)
    ensures
        r@ == cell_spec(row@, key@, mark@),
        first_sep(key@) >= 0 ==> r@ == (if row@.contains_key(key_group(key@)) && row@[key_group(key@)]
            == key_member(key@) {
            mark@
        } else {
            Seq::<char>::empty()
        }),
        first_sep(key@) < 0 ==> r@ == (if row@.contains_key(key@) {
            row@[key@]
        } else {
            Seq::<char>::empty()
        }),
{
    proof {
        lemma_first_sep_bounds(key@);
    }
    match find_sep(key.as_str()) {
        Some(i) => {
            let n = key.as_str().unicode_len();
            let group_key = key.as_str().substring_char(0, i);
            let member = key.as_str().substring_char(i + 2, n);
            assert(group_key@ =~= key_group(key@));
            assert(member@ =~= key_member(key@));
            match row.get(group_key) {
                Some(v) => {
                    if text_eq(v.as_str(), member) {
                        String::from_str(mark)
                    } else {
                        String::new()
                    }
                },
                None => String::new(),
            }
        },
        None => {
            match row.get(key.as_str()) {
                Some(v) => v.clone(),
                None => String::new(),
            }
        },
    }
}

/// The label a column is measured by.
pub fn label_of_column(col: &String) -> (r: String)
    ensures
        r@ == column_label_spec(col@),
{
    proof {
        lemma_first_sep_bounds(col@);
    }
    match find_sep(col.as_str()) {
        Some(i) => {
            let n = col.as_str().unicode_len();
            let rest = col.as_str().substring_char(i + 2, n);
            assert(rest@ =~= key_member(col@));
            proof {
                lemma_first_sep_bounds(rest@);
            }
            match find_sep(rest) {
                Some(j) => {
                    let m = rest.unicode_len();
                    let part = rest.substring_char(0, j);
                    assert(part@ =~= rest@.take(j as int));
                    String::from_str(part)
                },
                None => String::from_str(rest),
            }
        },
        None => col.clone(),
    }
}

/// A copy of a column group.
pub fn copy_group(cg: &ColGroup) -> (r: ColGroup)
    ensures
        r@ == cg@,
{
    let mut members: Vec<String> = Vec::new();
    let mut i: usize = 0;
    while i < cg.members.len()
        invariant
            i <= cg.members@.len(),
            texts_view(members@) == texts_view(cg.members@).take(i as int),
        decreases cg.members@.len() - i,
    {
        let ghost before = members@;
        let m = cg.members[i].clone();
        members.push(m);
        assert(members@ == before.push(m));
        assert(texts_view(members@) =~= texts_view(before).push(m@));
        assert(texts_view(cg.members@).take(i + 1) =~= texts_view(cg.members@).take(i as int).push(cg.members@[i as int]@));
        assert(texts_view(members@) =~= texts_view(cg.members@).take(i + 1));
        i = i + 1;
    }
    assert(texts_view(cg.members@).take(i as int) =~= texts_view(cg.members@));
    ColGroup { key: cg.key.clone(), label: cg.label.clone(), expanded: cg.expanded, members }
}

/// A copy of a list of column groups.
pub fn copy_groups(v: &Vec<ColGroup>) -> (r: Vec<ColGroup>)
    ensures
        col_groups_view(r@) == col_groups_view(v@),
{
    let mut r: Vec<ColGroup> = Vec::new();
    let mut i: usize = 0;
    while i < v.len()
        invariant
            i <= v@.len(),
            col_groups_view(r@) == col_groups_view(v@).take(i as int),
        decreases v@.len() - i,
    {
        let ghost before = r@;
        let c = copy_group(&v[i]);
        r.push(c);
        assert(r@ == before.push(c));
        assert(col_groups_view(r@) =~= col_groups_view(before).push(c@));
        assert(col_groups_view(v@).take(i + 1) =~= col_groups_view(v@).take(i as int).push(v@[i as int]@));
        assert(col_groups_view(r@) =~= col_groups_view(v@).take(i + 1));
        i = i + 1;
    }
    assert(col_groups_view(v@).take(i as int) =~= col_groups_view(v@));
    r
}

/// The full column list: competition, season, then each group's header
/// followed by its members.
pub fn build_columns(cgs: &Vec<ColGroup>) -> (cols: Vec<String>)
    ensures
        texts_view(cols@) == columns_spec(col_groups_view(cgs@)),
{
    let ghost gv = col_groups_view(cgs@);
    let mut cols: Vec<String> = Vec::new();
    cols.push(String::from_str("competition"));
    cols.push(String::from_str("season"));
    assert(texts_view(cols@) =~= columns_spec(gv.take(0)));
    let mut g: usize = 0;
    while g < cgs.len()
        invariant
            gv == col_groups_view(cgs@),
            g <= cgs@.len(),
            texts_view(cols@) == columns_spec(gv.take(g as int)),
        decreases cgs@.len() - g,
    {
        let cg = &cgs[g];
        let ghost before = texts_view(cols@);
        cols.push(cg.key.clone());
        let mut m: usize = 0;
        while m < cg.members.len()
            invariant
                g < cgs@.len(),
                cg == &cgs@[g as int],
                m <= cg.members@.len(),
                texts_view(cols@) == before + seq![cg.key@] + texts_view(cg.members@).take(m as int).map_values(
                    |x: Seq<char>| member_key(cg.key@, x),
                ),
            decreases cg.members@.len() - m,
        {
            let k = make_member_key(&cg.key, &cg.members[m]);
            let ghost old_cols = texts_view(cols@);
            cols.push(k);
            assert(texts_view(cols@) =~= old_cols.push(k@));
            assert(texts_view(cg.members@).take(m + 1) =~= texts_view(cg.members@).take(m as int).push(cg.members@[m as int]@));
            assert(texts_view(cg.members@).take(m + 1).map_values(|x: Seq<char>| member_key(cg.key@, x))
                =~= texts_view(cg.members@).take(m as int).map_values(|x: Seq<char>| member_key(cg.key@, x)).push(k@));
            assert(texts_view(cols@) =~= before + seq![cg.key@] + texts_view(cg.members@).take(m + 1).map_values(
                |x: Seq<char>| member_key(cg.key@, x),
            ));
            m = m + 1;
        }
        assert(texts_view(cg.members@).take(m as int) =~= texts_view(cg.members@));
        assert(gv.take(g + 1).drop_last() =~= gv.take(g as int));
        assert(gv[g as int] == cg@);
        assert(texts_view(cols@) =~= columns_spec(gv.take(g + 1)));
        g = g + 1;
    }
    assert(gv.take(cgs@.len() as int) =~= gv);
    cols
}

/// The visible columns for the given column list and groups.
pub fn build_visible(columns: &Vec<String>, cgs: &Vec<ColGroup>) -> (v: Vec<VisCol>)
    ensures
        vis_cols_view(v@) == visible_spec(texts_view(columns@), col_groups_view(cgs@)),
{
    let ghost gv = col_groups_view(cgs@);
    let ghost cv = texts_view(columns@);
    let mut v: Vec<VisCol> = Vec::new();
    let c0 = String::from_str("competition");
    let w0 = find_width_slot(columns, "competition");
    v.push(VisCol { key: c0, label: String::from_str("competition"), width_idx: w0, col_group_idx: None });
    let w1 = find_width_slot(columns, "season");
    v.push(VisCol { key: String::from_str("season"), label: String::from_str("season"), width_idx: w1, col_group_idx: None });
    let ghost base = vis_cols_view(v@);
    assert(vis_cols_view(v@) =~= visible_spec(cv, gv.take(0)));
    let mut g: usize = 0;
    while g < cgs.len()
        invariant
            gv == col_groups_view(cgs@),
            cv == texts_view(columns@),
            g <= cgs@.len(),
            vis_cols_view(v@) == base + visible_groups(cv, gv, g as nat),
            base == seq![
                ("competition"@, "competition"@, width_slot(cv, "competition"@), None::<usize>),
                ("season"@, "season"@, width_slot(cv, "season"@), None::<usize>),
            ],
        decreases cgs@.len() - g,
    {
        let cg = &cgs[g];
        let ghost before = vis_cols_view(v@);
        let wh = find_width_slot(columns, cg.key.as_str());
        v.push(VisCol { key: cg.key.clone(), label: cg.label.clone(), width_idx: wh, col_group_idx: Some(g) });
        let ghost mapper = |x: Seq<char>| (member_key(cg.key@, x), x, width_slot(cv, member_key(cg.key@, x)), Some(g));
        let ghost hdr = (cg.key@, cg.label@, width_slot(cv, cg.key@), Some(g));
        assert(vis_cols_view(v@) =~= before.push(hdr));
        assert(gv[g as int] == cg@);
        assert(visible_group(cv, gv[g as int], g) == seq![hdr] + if cg.expanded {
            texts_view(cg.members@).map_values(mapper)
        } else {
            Seq::empty()
        }) by {
            if cg.expanded {
                assert(visible_group(cv, gv[g as int], g) =~= seq![hdr] + texts_view(cg.members@).map_values(mapper));
            } else {
                assert(visible_group(cv, gv[g as int], g) =~= seq![hdr]);
            }
        }
        if cg.expanded {
            let mut m: usize = 0;
            while m < cg.members.len()
                invariant
                    g < cgs@.len(),
                    cg == &cgs@[g as int],
                    cv == texts_view(columns@),
                    m <= cg.members@.len(),
                    mapper == (|x: Seq<char>| (member_key(cg.key@, x), x, width_slot(cv, member_key(cg.key@, x)), Some(g))),
                    vis_cols_view(v@) == before + seq![(cg.key@, cg.label@, width_slot(cv, cg.key@), Some(g))]
                        + texts_view(cg.members@).take(m as int).map_values(mapper),
                decreases cg.members@.len() - m,
            {
                let k = make_member_key(&cg.key, &cg.members[m]);
                let w = find_width_slot(columns, k.as_str());
                let ghost old_v = vis_cols_view(v@);
                let vc = VisCol { key: k, label: cg.members[m].clone(), width_idx: w, col_group_idx: Some(g) };
                assert(vc@ == mapper(cg.members@[m as int]@));
                v.push(vc);
                assert(vis_cols_view(v@) =~= old_v.push(vc@));
                assert(texts_view(cg.members@).take(m + 1) =~= texts_view(cg.members@).take(m as int).push(cg.members@[m as int]@));
                assert(texts_view(cg.members@).take(m + 1).map_values(mapper)
                    =~= texts_view(cg.members@).take(m as int).map_values(mapper).push(vc@));
                assert(vis_cols_view(v@) =~= before + seq![(cg.key@, cg.label@, width_slot(cv, cg.key@), Some(g))]
                    + texts_view(cg.members@).take(m + 1).map_values(mapper));
                m = m + 1;
            }
            assert(texts_view(cg.members@).take(m as int) =~= texts_view(cg.members@));
            assert(vis_cols_view(v@) =~= before + visible_group(cv, gv[g as int], g));
        } else {
            assert(vis_cols_view(v@) =~= before + visible_group(cv, gv[g as int], g));
        }
        assert(vis_cols_view(v@) =~= base + visible_groups(cv, gv, (g + 1) as nat));
        g = g + 1;
    }
    v
}

/// No character of `s` is a colon.
pub open spec fn no_colon(s: Seq<char>) -> bool {
    forall|i: int| 0 <= i < s.len() ==> #[trigger] s[i] != ':'
}

/// Every group key is free of colons, no group lists a member twice, and no
/// member name is empty.
pub open spec fn col_groups_valid(cgs: Seq<(Seq<char>, Seq<char>, bool, Seq<Seq<char>>)>) -> bool {
    &&& cgs.len() <= usize::MAX
    &&& forall|g: int|
        0 <= g < cgs.len() ==> {
            &&& no_colon(#[trigger] cgs[g].0)
            &&& cgs[g].3.no_duplicates()
            &&& cgs[g].3.len() <= usize::MAX
            &&& forall|i: int| 0 <= i < cgs[g].3.len() ==> (#[trigger] cgs[g].3[i]).len() > 0
        }
}

pub proof fn lemma_no_colon_no_sep(s: Seq<char>)
    requires
        no_colon(s),
    ensures
        first_sep(s) < 0,
    decreases s.len(),
{
    if s.len() >= 2 {
        assert(s[0] != ':');
        let t = s.drop_first();
        assert(no_colon(t)) by {
            assert forall|i: int| 0 <= i < t.len() implies #[trigger] t[i] != ':' by {
                assert(t[i] == s[i + 1]);
            }
        }
        lemma_no_colon_no_sep(t);
    }
}

/// A member key splits back into its group key and member.
pub proof fn lemma_member_key_split(gk: Seq<char>, m: Seq<char>)
    requires
        no_colon(gk),
    ensures
        first_sep(member_key(gk, m)) == gk.len(),
        key_member(member_key(gk, m)) == m,
        key_group(member_key(gk, m)) == gk,
    decreases gk.len(),
{
    let s = member_key(gk, m);
    if gk.len() == 0 {
        assert(s[0] == ':' && s[1] == ':');
    } else {
        let t = gk.drop_first();
        assert(no_colon(t)) by {
            assert forall|i: int| 0 <= i < t.len() implies #[trigger] t[i] != ':' by {
                assert(t[i] == gk[i + 1]);
            }
        }
        lemma_member_key_split(t, m);
        assert(s.drop_first() =~= member_key(t, m));
        assert(s[0] == gk[0]);
        assert(s.len() >= 2);
    }
    assert(s.skip(gk.len() + 2int) =~= m);
    assert(s.take(gk.len() as int) =~= gk);
}

/// How many visible columns a group takes.
pub open spec fn group_width(cg: (Seq<char>, Seq<char>, bool, Seq<Seq<char>>)) -> nat {
    1 + if cg.2 {
        cg.3.len()
    } else {
        0
    }
}

/// The position of group `g`'s header among the visible group columns.
pub open spec fn group_offset(cgs: Seq<(Seq<char>, Seq<char>, bool, Seq<Seq<char>>)>, g: nat) -> nat
    decreases g,
{
    if g == 0 {
        0
    } else {
        group_offset(cgs, (g - 1) as nat) + group_width(cgs[g - 1])
    }
}

pub proof fn lemma_visible_groups_index(
    columns: Seq<Seq<char>>,
    cgs: Seq<(Seq<char>, Seq<char>, bool, Seq<Seq<char>>)>,
    n: nat,
)
    requires
        n <= cgs.len(),
    ensures
        visible_groups(columns, cgs, n).len() == group_offset(cgs, n),
        forall|g: nat, j: int|
            g < n && 0 <= j < group_width(cgs[g as int]) ==> #[trigger] visible_groups(columns, cgs, n)[group_offset(
                cgs,
                g,
            ) + j] == #[trigger] visible_group(columns, cgs[g as int], g as usize)[j],
    decreases n,
{
    if n > 0 {
        let m = (n - 1) as nat;
        lemma_visible_groups_index(columns, cgs, m);
        let prev = visible_groups(columns, cgs, m);
        let vg = visible_group(columns, cgs[m as int], m as usize);
        assert(vg.len() == group_width(cgs[m as int]));
        assert forall|g: nat, j: int|
            g < n && 0 <= j < group_width(cgs[g as int]) implies #[trigger] visible_groups(columns, cgs, n)[group_offset(
                cgs,
                g,
            ) + j] == #[trigger] visible_group(columns, cgs[g as int], g as usize)[j] by {
            if g < m {
                lemma_offset_mono(cgs, g + 1, m);
                assert(visible_groups(columns, cgs, m)[group_offset(cgs, g) + j] == visible_group(columns, cgs[g as int], g as usize)[j]);
            }
        }
    }
}

pub proof fn lemma_offset_mono(cgs: Seq<(Seq<char>, Seq<char>, bool, Seq<Seq<char>>)>, a: nat, b: nat)
    requires
        a <= b,
    ensures
        group_offset(cgs, a) <= group_offset(cgs, b),
    decreases b,
{
    if a < b {
        lemma_offset_mono(cgs, a, (b - 1) as nat);
    }
}

/// Finds the group, and the place within it, of a visible group column.
pub proof fn lemma_visible_groups_locate(cgs: Seq<(Seq<char>, Seq<char>, bool, Seq<Seq<char>>)>, n: nat, k: int) -> (r: (
    nat,
    int,
))
    requires
        0 <= k < group_offset(cgs, n),
    ensures
        r.0 < n,
        0 <= r.1 < group_width(cgs[r.0 as int]),
        k == group_offset(cgs, r.0) + r.1,
    decreases n,
{
    let m = (n - 1) as nat;
    if k < group_offset(cgs, m) {
        lemma_visible_groups_locate(cgs, m, k)
    } else {
        (m, k - group_offset(cgs, m))
    }
}

/// Offsets depend only on the width of each group.
pub proof fn lemma_offset_same_widths(
    a: Seq<(Seq<char>, Seq<char>, bool, Seq<Seq<char>>)>,
    b: Seq<(Seq<char>, Seq<char>, bool, Seq<Seq<char>>)>,
    n: nat,
)
    requires
        n <= a.len(),
        n <= b.len(),
        forall|h: int| 0 <= h < n ==> group_width(#[trigger] a[h]) == group_width(b[h]),
    ensures
        group_offset(a, n) == group_offset(b, n),
    decreases n,
{
    if n > 0 {
        lemma_offset_same_widths(a, b, (n - 1) as nat);
    }
}

/// `k` is one of the columns of group `cg`: its header, or the key of one of
/// its members.
pub open spec fn group_has_column(cg: (Seq<char>, Seq<char>, bool, Seq<Seq<char>>), k: Seq<char>) -> bool {
    ||| k == cg.0
    ||| first_sep(k) >= 0 && key_group(k) == cg.0 && cg.3.contains(key_member(k))
}

/// A key with a separator is its group key, the separator and its member.
pub proof fn lemma_key_rebuild(k: Seq<char>)
    requires
        first_sep(k) >= 0,
    ensures
        k == member_key(key_group(k), key_member(k)),
{
    lemma_first_sep_bounds(k);
    let f = first_sep(k);
    assert(k =~= k.take(f) + separator() + k.skip(f + 2));
}

/// The columns of a group are exactly the keys it has, each once.
pub proof fn lemma_group_columns(cg: (Seq<char>, Seq<char>, bool, Seq<Seq<char>>))
    requires
        no_colon(cg.0),
        cg.3.no_duplicates(),
    ensures
        group_columns(cg).no_duplicates(),
        forall|k: Seq<char>| group_columns(cg).contains(k) <==> group_has_column(cg, k),
{
    let gc = group_columns(cg);
    let ms = cg.3.map_values(|m: Seq<char>| member_key(cg.0, m));
    assert(gc == seq![cg.0] + ms);
    lemma_no_colon_no_sep(cg.0);
    assert forall|i: int| 0 <= i < ms.len() implies first_sep(#[trigger] ms[i]) == cg.0.len()
        && key_group(ms[i]) == cg.0 && key_member(ms[i]) == cg.3[i] by {
        lemma_member_key_split(cg.0, cg.3[i]);
    }
    assert forall|a: int, b: int| 0 <= a < gc.len() && 0 <= b < gc.len() && a != b implies gc[a] != gc[b] by {
        if a > 0 && b > 0 {
            assert(gc[a] == ms[a - 1] && gc[b] == ms[b - 1]);
        } else if a == 0 {
            assert(gc[b] == ms[b - 1]);
        } else {
            assert(gc[a] == ms[a - 1]);
        }
    }
    assert forall|k: Seq<char>| gc.contains(k) <==> group_has_column(cg, k) by {
        if gc.contains(k) {
            let i = choose|i: int| 0 <= i < gc.len() && gc[i] == k;
            if i > 0 {
                assert(gc[i] == ms[i - 1]);
                assert(cg.3.contains(cg.3[i - 1]));
            }
        }
        if group_has_column(cg, k) {
            if k == cg.0 {
                assert(gc[0] == k);
            } else {
                let m = key_member(k);
                let i = choose|i: int| 0 <= i < cg.3.len() && cg.3[i] == m;
                lemma_key_rebuild(k);
                assert(ms[i] == k);
                assert(gc[i + 1] == k);
            }
        }
    }
}

/// Joining two lists without duplicates and without common elements gives a
/// list without duplicates.
pub proof fn lemma_no_dup_concat(a: Seq<Seq<char>>, b: Seq<Seq<char>>)
    requires
        a.no_duplicates(),
        b.no_duplicates(),
        forall|x: Seq<char>| a.contains(x) ==> !b.contains(x),
    ensures
        (a + b).no_duplicates(),
        forall|x: Seq<char>| (a + b).contains(x) <==> (a.contains(x) || b.contains(x)),
{
    let c = a + b;
    assert forall|i: int, j: int| 0 <= i < c.len() && 0 <= j < c.len() && i != j implies c[i] != c[j] by {
        if i < a.len() && j >= a.len() {
            assert(a.contains(c[i]));
            assert(b[j - a.len()] == c[j]);
        } else if j < a.len() && i >= a.len() {
            assert(a.contains(c[j]));
            assert(b[i - a.len()] == c[i]);
        } else if i >= a.len() {
            assert(c[i] == b[i - a.len()] && c[j] == b[j - a.len()]);
        }
    }
    assert forall|x: Seq<char>| c.contains(x) <==> (a.contains(x) || b.contains(x)) by {
        if c.contains(x) {
            let i = choose|i: int| 0 <= i < c.len() && c[i] == x;
            if i >= a.len() {
                assert(b[i - a.len()] == x);
            }
        }
        if a.contains(x) {
            let i = choose|i: int| 0 <= i < a.len() && a[i] == x;
            assert(c[i] == x);
        }
        if b.contains(x) {
            let i = choose|i: int| 0 <= i < b.len() && b[i] == x;
            assert(c[i + a.len()] == x);
        }
    }
}

/// A key that occurs in a list is found at its first position.
pub proof fn lemma_width_slot_in(s: Seq<Seq<char>>, k: Seq<char>)
    requires
        s.contains(k),
        s.len() <= usize::MAX,
    ensures
        width_slot(s, k) < s.len(),
        s[width_slot(s, k) as int] == k,
    decreases s.len(),
{
    if s.drop_last().contains(k) {
        lemma_width_slot_in(s.drop_last(), k);
    } else {
        let i = choose|i: int| 0 <= i < s.len() && s[i] == k;
        if i < s.len() - 1 {
            assert(s.drop_last()[i] == k);
        }
    }
}

/// In the column of member `m` of group `gk`, a row shows `mark` exactly when
/// its value under `gk` is `m`, and nothing otherwise.
pub proof fn lemma_member_cell(row: Map<Seq<char>, Seq<char>>, gk: Seq<char>, m: Seq<char>, mark: Seq<char>)
    requires
        no_colon(gk),
    ensures
        cell_spec(row, member_key(gk, m), mark) == (if row.contains_key(gk) && row[gk] == m {
            mark
        } else {
            Seq::<char>::empty()
        }),
{
    lemma_member_key_split(gk, m);
}

/// A row is marked in at most one member column of a group.
pub proof fn lemma_one_mark_per_group(
    row: Map<Seq<char>, Seq<char>>,
    gk: Seq<char>,
    m1: Seq<char>,
    m2: Seq<char>,
    mark: Seq<char>,
)
    requires
        no_colon(gk),
        m1 != m2,
        mark.len() > 0,
    ensures
        !(cell_spec(row, member_key(gk, m1), mark) == mark && cell_spec(row, member_key(gk, m2), mark) == mark),
{
    lemma_member_cell(row, gk, m1, mark);
    lemma_member_cell(row, gk, m2, mark);
}

/// In a column without a separator the cell is the row's own value there,
/// empty when the row has none.
pub proof fn lemma_plain_cell(row: Map<Seq<char>, Seq<char>>, key: Seq<char>, mark: Seq<char>)
    requires
        no_colon(key),
    ensures
        cell_spec(row, key, mark) == (if row.contains_key(key) {
            row[key]
        } else {
            Seq::<char>::empty()
        }),
{
    lemma_no_colon_no_sep(key);
}

} // verus!
