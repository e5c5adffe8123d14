//! Grouping rows by competition, ordering each group by season, and
//! collecting the distinct team names of a column.

use vstd::prelude::*;

use crate::row::DataRow;
use crate::text::{
    compare_text, lemma_lex_antisym, lemma_lex_trans, lex_lt, lex_order,
    parse_i64, parse_i64_spec, text_eq, Order,
};

verus! {

/// The text stored under `key`, or the empty text when the row has none.
pub open spec fn field_text(row: Map<Seq<char>, Seq<char>>, key: Seq<char>) -> Seq<char> {
    if row.contains_key(key) {
        row[key]
    } else {
        Seq::empty()
    }
}

pub open spec fn rows_view(rows: Seq<DataRow>) -> Seq<Map<Seq<char>, Seq<char>>> {
    rows.map_values(|r: DataRow| r@)
}

pub open spec fn competition_of(row: Map<Seq<char>, Seq<char>>) -> Seq<char> {
    field_text(row, "competition"@)
}

pub open spec fn season_of(row: Map<Seq<char>, Seq<char>>) -> Seq<char> {
    field_text(row, "season"@)
}

/// The distinct competitions of the first `n` rows, in order of first appearance.
pub open spec fn competition_order(rows: Seq<Map<Seq<char>, Seq<char>>>, n: nat) -> Seq<Seq<char>>
    decreases n,
{
    if n == 0 {
        Seq::empty()
    } else {
        let prev = competition_order(rows, (n - 1) as nat);
        let c = competition_of(rows[n - 1]);
        if prev.contains(c) {
            prev
        } else {
            prev.push(c)
        }
    }
}

/// The indices, below `n` and in ascending order, of the rows of competition `c`.
pub open spec fn rows_with(rows: Seq<Map<Seq<char>, Seq<char>>>, c: Seq<char>, n: nat) -> Seq<usize>
    decreases n,
{
    if n == 0 {
        Seq::empty()
    } else {
        let prev = rows_with(rows, c, (n - 1) as nat);
        if competition_of(rows[n - 1]) == c {
            prev.push((n - 1) as usize)
        } else {
            prev
        }
    }
}

/// How two season texts compare: by value when both are integers, else as text.
pub open spec fn season_order(a: Seq<char>, b: Seq<char>) -> Order {
    match (parse_i64_spec(a), parse_i64_spec(b)) {
        (Some(x), Some(y)) => if x < y {
            Order::Less
        } else if x == y {
            Order::Equal
        } else {
            Order::Greater
        },
        _ => lex_order(a, b),
    }
}

pub open spec fn row_season_order(rows: Seq<Map<Seq<char>, Seq<char>>>, i: usize, j: usize) -> Order {
    season_order(season_of(rows[i as int]), season_of(rows[j as int]))
}

/// `out` is `input` (ascending row indices) put in season order: a permutation
/// in which no row precedes a neighbour of an earlier season, and two rows
/// change their relative order only where the later row's season comes first.
pub open spec fn sorted_by_season(
    rows: Seq<Map<Seq<char>, Seq<char>>>,
    input: Seq<usize>,
    out: Seq<usize>,
) -> bool {
    &&& out.len() == input.len()
    &&& out.no_duplicates()
    &&& forall|k: usize| out.contains(k) <==> input.contains(k)
    &&& forall|p: int, q: int|
        #![trigger out[p], out[q]]
        0 <= p && q == p + 1 && q < out.len() ==> row_season_order(rows, out[q], out[p])
            != Order::Less
    &&& forall|p: int, q: int|
        #![trigger out[p], out[q]]
        0 <= p < q < out.len() && out[p] > out[q] ==> row_season_order(rows, out[p], out[q])
            == Order::Less
}

/// `groups` is the grouping of `rows`: one group per competition, in order of
/// first appearance, each holding its rows in season order.
pub open spec fn groups_match(
    rows: Seq<Map<Seq<char>, Seq<char>>>,
    groups: Seq<(Seq<char>, Seq<usize>)>,
) -> bool {
    let order = competition_order(rows, rows.len());
    &&& groups.len() == order.len()
    &&& forall|g: int|
        0 <= g < groups.len() ==> {
            &&& #[trigger] groups[g].0 == order[g]
            &&& sorted_by_season(rows, rows_with(rows, order[g], rows.len()), groups[g].1)
        }
}

/// The distinct non-empty values under `key`, in ascending text order.
pub open spec fn members_match(
    rows: Seq<Map<Seq<char>, Seq<char>>>,
    key: Seq<char>,
    members: Seq<Seq<char>>,
) -> bool {
    &&& forall|i: int, j: int| 0 <= i < j < members.len() ==> lex_lt(#[trigger] members[i], #[trigger] members[j])
    &&& forall|s: Seq<char>| members.contains(s) <==> value_present(rows, key, s, rows.len())
}

/// Some row below `n` holds the non-empty value `s` under `key`.
pub open spec fn value_present(rows: Seq<Map<Seq<char>, Seq<char>>>, key: Seq<char>, s: Seq<char>, n: nat) -> bool {
    exists|i: int| 0 <= i < n && #[trigger] rows[i].contains_key(key) && rows[i][key] == s && s.len() > 0
}

/// A group of rows sharing a competition.
pub struct Group {
    pub competition: String,
    pub row_indices: Vec<usize>,
}

impl View for Group {
    type V = (Seq<char>, Seq<usize>);

    open spec fn view(&self) -> (Seq<char>, Seq<usize>) {
        (self.competition@, self.row_indices@)
    }
}

pub open spec fn groups_view(groups: Seq<Group>) -> Seq<(Seq<char>, Seq<usize>)> {
    groups.map_values(|g: Group| g@)
}

proof fn lemma_order_distinct(rows: Seq<Map<Seq<char>, Seq<char>>>, n: nat)
    ensures
        competition_order(rows, n).no_duplicates(),
    decreases n,
{
    if n > 0 {
        lemma_order_distinct(rows, (n - 1) as nat);
    }
}

proof fn lemma_rows_with_absent(rows: Seq<Map<Seq<char>, Seq<char>>>, c: Seq<char>, n: nat)
    requires
        !competition_order(rows, n).contains(c),
    ensures
        rows_with(rows, c, n) == Seq::<usize>::empty(),
    decreases n,
{
    if n > 0 {
        let prev = competition_order(rows, (n - 1) as nat);
        if prev.contains(c) {
            let k = choose|k: int| 0 <= k < prev.len() && prev[k] == c;
            assert(competition_order(rows, n)[k] == c);
        }
        lemma_rows_with_absent(rows, c, (n - 1) as nat);
        if competition_of(rows[n - 1]) == c {
            if prev.contains(c) {
            } else {
                assert(competition_order(rows, n)[prev.len() as int] == c);
            }
        }
    }
}

pub proof fn lemma_rows_with_props(rows: Seq<Map<Seq<char>, Seq<char>>>, c: Seq<char>, n: nat)
    requires
        n <= usize::MAX + 1,
    ensures
        forall|p: int, q: int|
            0 <= p < q < rows_with(rows, c, n).len() ==> #[trigger] rows_with(rows, c, n)[p]
                < #[trigger] rows_with(rows, c, n)[q],
        forall|p: int| 0 <= p < rows_with(rows, c, n).len() ==> #[trigger] rows_with(rows, c, n)[p] < n,
        forall|k: usize|
            rows_with(rows, c, n).contains(k) <==> (k < n && competition_of(rows[k as int]) == c),
    decreases n,
{
    if n > 0 {
        lemma_rows_with_props(rows, c, (n - 1) as nat);
        let prev = rows_with(rows, c, (n - 1) as nat);
        let cur = rows_with(rows, c, n);
        assert forall|k: usize| cur.contains(k) <==> (k < n && competition_of(rows[k as int]) == c) by {
            if k == n - 1 && competition_of(rows[k as int]) == c {
                assert(cur[cur.len() - 1] == k);
            }
            if cur.contains(k) && competition_of(rows[n - 1]) == c {
                let p = choose|p: int| 0 <= p < cur.len() && cur[p] == k;
                if p < prev.len() {
                    assert(prev[p] == k);
                }
            }
            if prev.contains(k) {
                let p = choose|p: int| 0 <= p < prev.len() && prev[p] == k;
                assert(cur[p] == k);
            }
        }
    }
}

proof fn lemma_season_antisym(a: Seq<char>, b: Seq<char>)
    ensures
        (season_order(a, b) == Order::Less) <==> (season_order(b, a) == Order::Greater),
{
    lemma_lex_antisym(a, b);
}

/// The competition of a row, empty when the row has none.
fn competition_text(row: &DataRow) -> (s: String)
    ensures
        s@ == competition_of(row@),
{
    match row.get("competition") {
        Some(v) => v.clone(),
        None => String::new(),
    }
}

/// Groups the row indices by competition, in order of first appearance.
///
/// Competitions are looked up by scanning the groups built so far rather than
/// through a hash map keyed by competition: vstd gives hash maps no model for
/// `String` keys, so such lookups could not be proved.
#[verifier::loop_isolation(false)]
fn group_rows(rows: &Vec<DataRow>) -> (groups: Vec<Group>)
    ensures
        ({
            let rv = rows_view(rows@);
            let order = competition_order(rv, rows@.len());
            &&& groups@.len() == order.len()
            &&& forall|g: int|
                0 <= g < groups@.len() ==> #[trigger] groups@[g]@ == (
                order[g],
                rows_with(rv, order[g], rows@.len()),
            )
        }),
{
    let ghost rv = rows_view(rows@);
    let mut groups: Vec<Group> = Vec::new();
    let mut i: usize = 0;
    while i < rows.len()
        invariant
            rv == rows_view(rows@),
            i <= rows@.len(),
            groups@.len() == competition_order(rv, i as nat).len(),
            forall|g: int|
                0 <= g < groups@.len() ==> #[trigger] groups@[g]@ == (
                    competition_order(rv, i as nat)[g],
                    rows_with(rv, competition_order(rv, i as nat)[g], i as nat),
                ),
        decreases rows@.len() - i,
    {
        let c = competition_text(&rows[i]);
        let ghost order = competition_order(rv, i as nat);
        let ghost next_order = competition_order(rv, (i + 1) as nat);
        assert(rv[i as int] == rows@[i as int]@);
        proof {
            lemma_order_distinct(rv, i as nat);
        }
        let mut g: usize = 0;
        let mut found = false;
        while g < groups.len()
            invariant
                g <= groups@.len(),
                !found ==> forall|h: int| 0 <= h < g ==> (#[trigger] groups@[h]).competition@ != c@,
                found ==> g < groups@.len() && groups@[g as int].competition@ == c@,
            decreases groups@.len() - g + (if found { 0int } else { 1int }),
        {
            if text_eq(groups[g].competition.as_str(), c.as_str()) {
                found = true;
                break;
            }
            g = g + 1;
        }
        if found {
            assert(groups@[g as int]@ == (order[g as int], rows_with(rv, order[g as int], i as nat)));
            assert(order[g as int] == c@);
            assert(order.contains(c@));
            assert(next_order == order);
            let ghost old_groups = groups@;
            let mut grp = groups.remove(g);
            grp.row_indices.push(i);
            groups.insert(g, grp);
            assert(groups@ =~= old_groups.update(g as int, grp));
            assert(rows_with(rv, c@, (i + 1) as nat) == rows_with(rv, c@, i as nat).push(i));
            assert forall|h: int| 0 <= h < groups@.len() implies #[trigger] groups@[h]@ == (
                next_order[h],
                rows_with(rv, next_order[h], (i + 1) as nat),
            ) by {
                if h != g {
                    assert(old_groups[h]@ == (order[h], rows_with(rv, order[h], i as nat)));
                    assert(order[h] != order[g as int]);
                    assert(groups@[h] == old_groups[h]);
                }
            }
        } else {
            assert(!order.contains(c@)) by {
                if order.contains(c@) {
                    let h = choose|h: int| 0 <= h < order.len() && order[h] == c@;
                    assert(groups@[h]@.0 == c@);
                }
            }
            proof {
                lemma_rows_with_absent(rv, c@, i as nat);
            }
            assert(next_order == order.push(c@));
            let mut idx: Vec<usize> = Vec::new();
            idx.push(i);
            let ghost old_groups = groups@;
            groups.push(Group { competition: c, row_indices: idx });
            assert forall|h: int| 0 <= h < groups@.len() implies #[trigger] groups@[h]@ == (
                next_order[h],
                rows_with(rv, next_order[h], (i + 1) as nat),
            ) by {
                if h < order.len() {
                    assert(old_groups[h]@ == (order[h], rows_with(rv, order[h], i as nat)));
                    assert(groups@[h] == old_groups[h]);
                    assert(order[h] != c@);
                } else {
                    assert(rows_with(rv, c@, (i + 1) as nat) =~= seq![i]);
                }
            }
        }
        i = i + 1;
    }
    groups
}

/// The season text of a row, empty when the row has none.
fn season_text(row: &DataRow) -> (s: &str)
    ensures
        s@ == season_of(row@),
{
    match row.get("season") {
        Some(v) => v.as_str(),
        None => {
            proof {
                reveal_strlit("");
            }
            ""
        },
    }
}

/// Compares the seasons of two rows.
fn compare_seasons(rows: &Vec<DataRow>, a: usize, b: usize) -> (r: Order)
    requires
        a < rows@.len(),
        b < rows@.len(),
    ensures
        r == row_season_order(rows_view(rows@), a, b),
{
    let sa = season_text(&rows[a]);
    let sb = season_text(&rows[b]);
    match (parse_i64(sa), parse_i64(sb)) {
        (Some(x), Some(y)) => {
            if x < y {
                Order::Less
            } else if x == y {
                Order::Equal
            } else {
                Order::Greater
            }
        },
        _ => compare_text(sa, sb),
    }
}

/// Inserting the next input row where every row after it has a later season,
/// and the row before it does not, keeps the list in season order.
proof fn lemma_insert_sorted(
    rv: Seq<Map<Seq<char>, Seq<char>>>,
    input: Seq<usize>,
    k: int,
    prev: Seq<usize>,
    x: usize,
    j: int,
    nw: Seq<usize>,
)
    requires
        0 <= k < input.len(),
        x == input[k],
        sorted_by_season(rv, input.take(k), prev),
        forall|t: int| 0 <= t < prev.len() ==> #[trigger] prev[t] < x,
        0 <= j <= prev.len(),
        j > 0 ==> row_season_order(rv, x, prev[j - 1]) != Order::Less,
        forall|t: int| j <= t < prev.len() ==> row_season_order(rv, x, #[trigger] prev[t]) == Order::Less,
        nw == prev.insert(j, x),
    ensures
        sorted_by_season(rv, input.take(k + 1), nw),
{
    let take_next = input.take(k + 1);
    assert(take_next =~= input.take(k).push(x));
    let input_k = input.take(k);
    assert(nw.len() == prev.len() + 1);
    assert forall|t: int| 0 <= t < nw.len() implies #[trigger] nw[t] == (if t < j {
        prev[t]
    } else if t == j {
        x
    } else {
        prev[t - 1]
    }) by {}
    assert(!prev.contains(x)) by {
        if prev.contains(x) {
            let t = choose|t: int| 0 <= t < prev.len() && prev[t] == x;
            assert(prev[t] < x);
        }
    }
    assert(nw.no_duplicates()) by {
        assert forall|a: int, b: int| 0 <= a < nw.len() && 0 <= b < nw.len() && a != b implies nw[a] != nw[b] by {
            if a != j && b != j {
                let pa = if a < j { a } else { a - 1 };
                let pb = if b < j { b } else { b - 1 };
                assert(nw[a] == prev[pa]);
                assert(nw[b] == prev[pb]);
            } else if a == j {
                let pb = if b < j { b } else { b - 1 };
                assert(nw[b] == prev[pb]);
            } else {
                let pa = if a < j { a } else { a - 1 };
                assert(nw[a] == prev[pa]);
            }
        }
    }
    assert forall|m: usize| nw.contains(m) <==> take_next.contains(m) by {
        if nw.contains(m) {
            let t = choose|t: int| 0 <= t < nw.len() && nw[t] == m;
            if t == j {
                assert(take_next[k as int] == m);
            } else {
                let pt = if t < j { t } else { t - 1 };
                assert(prev[pt] == m);
                assert(prev.contains(m));
                assert(input_k.contains(m));
                let u = choose|u: int| 0 <= u < k && input_k[u] == m;
                assert(take_next[u] == m);
            }
        }
        if take_next.contains(m) {
            let u = choose|u: int| 0 <= u < k + 1 && take_next[u] == m;
            if u == k {
                assert(nw[j] == m);
            } else {
                assert(input_k[u] == m);
                assert(input_k.contains(m));
                assert(prev.contains(m));
                let t = choose|t: int| 0 <= t < prev.len() && prev[t] == m;
                if t < j {
                    assert(nw[t] == m);
                } else {
                    assert(nw[t + 1] == m);
                }
            }
        }
    }
    assert forall|p: int, q: int|
        #![trigger nw[p], nw[q]]
        0 <= p && q == p + 1 && q < nw.len() implies row_season_order(rv, nw[q], nw[p])
            != Order::Less by {
        if q < j {
            assert(prev[p] == nw[p] && prev[q] == nw[q]);
        } else if q == j {
            assert(nw[p] == prev[p]);
        } else if p == j {
            assert(nw[q] == prev[j]);
            lemma_season_antisym(season_of(rv[x as int]), season_of(rv[prev[j] as int]));
        } else {
            assert(nw[p] == prev[p - 1] && nw[q] == prev[q - 1]);
        }
    }
    assert forall|p: int, q: int|
        #![trigger nw[p], nw[q]]
        0 <= p < q < nw.len() && nw[p] > nw[q] implies row_season_order(rv, nw[p], nw[q])
            == Order::Less by {
        if p == j {
            assert(nw[q] == prev[q - 1]);
        } else if q == j {
            let pp = if p < j { p } else { p - 1 };
            assert(nw[p] == prev[pp]);
        } else {
            let pp = if p < j { p } else { p - 1 };
            let qq = if q < j { q } else { q - 1 };
            assert(nw[p] == prev[pp] && nw[q] == prev[qq]);
        }
    }
}

/// Stable insertion sort of row indices by season.
fn sort_by_season(rows: &Vec<DataRow>, input: &Vec<usize>) -> (out: Vec<usize>)
    requires
        forall|k: int| 0 <= k < input@.len() ==> #[trigger] input@[k] < rows@.len(),
        forall|p: int, q: int| 0 <= p < q < input@.len() ==> #[trigger] input@[p] < #[trigger] input@[q],
    ensures
        sorted_by_season(rows_view(rows@), input@, out@),
{
    let ghost rv = rows_view(rows@);
    let mut out: Vec<usize> = Vec::new();
    let mut k: usize = 0;
    while k < input.len()
        invariant
            rv == rows_view(rows@),
            k <= input@.len(),
            forall|t: int| 0 <= t < input@.len() ==> #[trigger] input@[t] < rows@.len(),
            forall|p: int, q: int| 0 <= p < q < input@.len() ==> #[trigger] input@[p] < #[trigger] input@[q],
            sorted_by_season(rv, input@.take(k as int), out@),
        decreases input@.len() - k,
    {
        let x = input[k];
        let ghost prev = out@;
        proof {
            assert forall|t: int| 0 <= t < prev.len() implies #[trigger] prev[t] < x && prev[t] < rows@.len() by {
                assert(input@.take(k as int).contains(prev[t]));
                let u = choose|u: int| 0 <= u < k && input@.take(k as int)[u] == prev[t];
                assert(input@[u] == prev[t]);
            }
        }
        let mut j = out.len();
        while j > 0 && compare_seasons(rows, x, out[j - 1]) == Order::Less
            invariant
                rv == rows_view(rows@),
                out@ == prev,
                j <= prev.len(),
                x < rows@.len(),
                forall|t: int| 0 <= t < prev.len() ==> #[trigger] prev[t] < rows@.len(),
                forall|t: int| j <= t < prev.len() ==> row_season_order(rv, x, #[trigger] prev[t]) == Order::Less,
            decreases j,
        {
            j = j - 1;
        }
        out.insert(j, x);
        proof {
            lemma_insert_sorted(rv, input@, k as int, prev, x, j as int, out@);
        }
        k = k + 1;
    }
    assert(input@.take(input@.len() as int) =~= input@);
    out
}

/// Groups the rows by competition, in order of first appearance, each group
/// holding its row indices in season order.
pub fn build_groups(rows: &Vec<DataRow>) -> (groups: Vec<Group>)
    ensures
        groups_match(rows_view(rows@), groups_view(groups@)),
{
    let ghost rv = rows_view(rows@);
    let ghost order = competition_order(rv, rows@.len());
    let n = rows.len();
    assert(rv.len() == rows@.len());
    let unsorted = group_rows(rows);
    let mut groups: Vec<Group> = Vec::new();
    let mut g: usize = 0;
    while g < unsorted.len()
        invariant
            rv == rows_view(rows@),
            order == competition_order(rv, rows@.len()),
            n == rows@.len(),
            rv.len() == n,
            unsorted@.len() == order.len(),
            forall|h: int| 0 <= h < unsorted@.len() ==> #[trigger] unsorted@[h]@ == (
                order[h],
                rows_with(rv, order[h], rows@.len()),
            ),
            g <= unsorted@.len(),
            groups@.len() == g,
            forall|h: int| 0 <= h < g ==> {
                &&& #[trigger] groups@[h]@.0 == order[h]
                &&& sorted_by_season(rv, rows_with(rv, order[h], rows@.len()), groups@[h]@.1)
            },
        decreases unsorted@.len() - g,
    {
        let grp = &unsorted[g];
        assert(grp@ == (order[g as int], rows_with(rv, order[g as int], rows@.len())));
        proof {
            lemma_rows_with_props(rv, order[g as int], rows@.len());
        }
        let sorted = sort_by_season(rows, &grp.row_indices);
        groups.push(Group { competition: grp.competition.clone(), row_indices: sorted });
        g = g + 1;
    }
    let ghost gv = groups_view(groups@);
    assert(gv.len() == groups@.len());
    assert forall|h: int| 0 <= h < gv.len() implies {
        &&& #[trigger] gv[h].0 == order[h]
        &&& sorted_by_season(rv, rows_with(rv, order[h], rv.len()), gv[h].1)
    } by {
        assert(gv[h] == groups@[h]@);
    }
    groups
}

pub open spec fn strictly_ascending(m: Seq<Seq<char>>) -> bool {
    forall|i: int, j: int| 0 <= i < j < m.len() ==> lex_lt(#[trigger] m[i], #[trigger] m[j])
}

pub open spec fn texts_view(m: Seq<String>) -> Seq<Seq<char>> {
    m.map_values(|s: String| s@)
}

/// Inserts `x` into an ascending list of distinct texts unless it is there.
fn insert_sorted(m: &mut Vec<String>, x: &String)
    requires
        strictly_ascending(texts_view(old(m)@)),
    ensures
        strictly_ascending(texts_view(final(m)@)),
        forall|s: Seq<char>| texts_view(final(m)@).contains(s) <==> (texts_view(old(m)@).contains(s) || s == x@),
{
    let ghost old_v = texts_view(m@);
    let mut p: usize = 0;
    let mut stop = false;
    while p < m.len() && !stop
        invariant
            m@ == old(m)@,
            old_v == texts_view(m@),
            strictly_ascending(old_v),
            p <= m@.len(),
            forall|t: int| 0 <= t < p ==> lex_lt(#[trigger] old_v[t], x@),
            stop ==> p < m@.len() && lex_order(old_v[p as int], x@) == Order::Greater,
        decreases m@.len() - p + (if stop { 0int } else { 1int }),
    {
        match compare_text(m[p].as_str(), x.as_str()) {
            Order::Less => {
                p = p + 1;
            },
            Order::Equal => {
                proof {
                    crate::text::lemma_lex_equal(m@[p as int]@, x@);
                    assert(old_v[p as int] == x@);
                }
                return;
            },
            Order::Greater => {
                stop = true;
            },
        }
    }
    proof {
        if p < m@.len() {
            lemma_lex_antisym(old_v[p as int], x@);
        }
    }
    m.insert(p, x.clone());
    let ghost new_v = texts_view(m@);
    proof {
        assert(new_v =~= old_v.insert(p as int, x@));
        assert forall|i: int, j: int| 0 <= i < j < new_v.len() implies lex_lt(#[trigger] new_v[i], #[trigger] new_v[j]) by {
            if j < p {
            } else if j == p {
            } else if i == p {
                assert(new_v[j] == old_v[j - 1]);
                if j - 1 > p {
                    lemma_lex_trans(x@, old_v[p as int], old_v[j - 1]);
                }
            } else if i < p {
                assert(new_v[j] == old_v[j - 1]);
                assert(lex_lt(old_v[i], old_v[j - 1]));
            } else {
                assert(new_v[i] == old_v[i - 1]);
                assert(new_v[j] == old_v[j - 1]);
            }
        }
        assert forall|s: Seq<char>| new_v.contains(s) <==> (old_v.contains(s) || s == x@) by {
            if new_v.contains(s) {
                let t = choose|t: int| 0 <= t < new_v.len() && new_v[t] == s;
                if t < p {
                    assert(old_v[t] == s);
                } else if t > p {
                    assert(old_v[t - 1] == s);
                }
            }
            if old_v.contains(s) {
                let t = choose|t: int| 0 <= t < old_v.len() && old_v[t] == s;
                if t < p {
                    assert(new_v[t] == s);
                } else {
                    assert(new_v[t + 1] == s);
                }
            }
            if s == x@ {
                assert(new_v[p as int] == s);
            }
        }
    }
}

/// The distinct non-empty values found under `key`, in ascending text order.
///
/// The values are kept in a sorted list with insertion by scan rather than a
/// hash set then a sort: vstd gives hash sets no model for `String` elements.
pub fn collect_members(rows: &Vec<DataRow>, key: &str) -> (m: Vec<String>)
    ensures
        strictly_ascending(texts_view(m@)),
        forall|s: Seq<char>| texts_view(m@).contains(s) <==> value_present(rows_view(rows@), key@, s, rows@.len()),
{
    let ghost rv = rows_view(rows@);
    let mut m: Vec<String> = Vec::new();
    let mut i: usize = 0;
    assert(texts_view(m@) =~= Seq::<Seq<char>>::empty());
    while i < rows.len()
        invariant
            rv == rows_view(rows@),
            i <= rows@.len(),
            strictly_ascending(texts_view(m@)),
            forall|s: Seq<char>| texts_view(m@).contains(s) <==> value_present(rv, key@, s, i as nat),
        decreases rows@.len() - i,
    {
        assert(rv[i as int] == rows@[i as int]@);
        let ghost before = texts_view(m@);
        match rows[i].get(key) {
            Some(v) => {
                if !v.as_str().is_empty() {
                    insert_sorted(&mut m, v);
                }
            },
            None => {},
        }
        assert forall|s: Seq<char>| texts_view(m@).contains(s) <==> value_present(rv, key@, s, (i + 1) as nat) by {
            if value_present(rv, key@, s, (i + 1) as nat) {
                let t = choose|t: int| 0 <= t < i + 1 && #[trigger] rv[t].contains_key(key@) && rv[t][key@] == s && s.len() > 0;
                if t < i {
                    assert(value_present(rv, key@, s, i as nat));
                }
            }
            if value_present(rv, key@, s, i as nat) {
                let t = choose|t: int| 0 <= t < i && #[trigger] rv[t].contains_key(key@) && rv[t][key@] == s && s.len() > 0;
                assert(value_present(rv, key@, s, (i + 1) as nat));
            }
        }
        i = i + 1;
    }
    m
}

proof fn lemma_order_covers(rows: Seq<Map<Seq<char>, Seq<char>>>, n: nat)
    ensures
        forall|i: int| 0 <= i < n ==> competition_order(rows, n).contains(#[trigger] competition_of(rows[i])),
        forall|g: int| 0 <= g < competition_order(rows, n).len() ==> exists|i: int|
            0 <= i < n && #[trigger] competition_of(rows[i]) == #[trigger] competition_order(rows, n)[g],
    decreases n,
{
    if n > 0 {
        let m = (n - 1) as nat;
        lemma_order_covers(rows, m);
        let prev = competition_order(rows, m);
        let cur = competition_order(rows, n);
        assert forall|i: int| 0 <= i < n implies cur.contains(#[trigger] competition_of(rows[i])) by {
            if i < m {
                assert(prev.contains(competition_of(rows[i])));
                let k = choose|k: int| 0 <= k < prev.len() && prev[k] == competition_of(rows[i]);
                assert(cur[k] == competition_of(rows[i]));
            } else if !prev.contains(competition_of(rows[i])) {
                assert(cur[prev.len() as int] == competition_of(rows[i]));
            }
        }
        assert forall|g: int| 0 <= g < cur.len() implies exists|i: int|
            0 <= i < n && #[trigger] competition_of(rows[i]) == #[trigger] cur[g] by {
            if g < prev.len() {
                assert(cur[g] == prev[g]);
                let i = choose|i: int| 0 <= i < m && #[trigger] competition_of(rows[i]) == prev[g];
                assert(competition_of(rows[i]) == cur[g]);
            } else {
                assert(competition_of(rows[m as int]) == cur[g]);
            }
        }
    }
}

/// Row `i` is listed in a group of its competition.
pub open spec fn in_its_group(
    rows: Seq<Map<Seq<char>, Seq<char>>>,
    groups: Seq<(Seq<char>, Seq<usize>)>,
    i: usize,
) -> bool {
    exists|g: int| 0 <= g < groups.len() && #[trigger] groups[g].1.contains(i) && groups[g].0 == competition_of(rows[i as int])
}

/// Every row belongs to exactly one group, the group of its competition;
/// groups are non-empty and their competitions are distinct.
pub proof fn lemma_groups_partition_rows(
    rows: Seq<Map<Seq<char>, Seq<char>>>,
    groups: Seq<(Seq<char>, Seq<usize>)>,
)
    requires
        rows.len() <= usize::MAX,
        groups_match(rows, groups),
    ensures
        forall|i: usize| i < rows.len() ==> #[trigger] in_its_group(rows, groups, i),
        forall|g: int, i: usize| 0 <= g < groups.len() && #[trigger] groups[g].1.contains(i) ==>
            i < rows.len() && competition_of(rows[i as int]) == groups[g].0,
        forall|g1: int, g2: int| 0 <= g1 < groups.len() && 0 <= g2 < groups.len() && g1 != g2 ==>
            #[trigger] groups[g1].0 != #[trigger] groups[g2].0,
        forall|g: int| 0 <= g < groups.len() ==> #[trigger] groups[g].1.len() > 0,
{
    let n = rows.len();
    let order = competition_order(rows, n);
    lemma_order_distinct(rows, n);
    lemma_order_covers(rows, n);
    assert forall|g: int, i: usize| 0 <= g < groups.len() && #[trigger] groups[g].1.contains(i) implies
        i < rows.len() && competition_of(rows[i as int]) == groups[g].0 by {
        lemma_rows_with_props(rows, order[g], n);
        assert(groups[g].0 == order[g]);
    }
    assert forall|i: usize| i < rows.len() implies #[trigger] in_its_group(rows, groups, i) by {
        let c = competition_of(rows[i as int]);
        assert(order.contains(c));
        let g = choose|g: int| 0 <= g < order.len() && order[g] == c;
        lemma_rows_with_props(rows, c, n);
        assert(groups[g].0 == order[g]);
        assert(rows_with(rows, c, n).contains(i));
        assert(groups[g].1.contains(i));
        assert(0 <= g < groups.len() && groups[g].1.contains(i) && groups[g].0 == competition_of(rows[i as int]));
    }
    assert forall|g1: int, g2: int| 0 <= g1 < groups.len() && 0 <= g2 < groups.len() && g1 != g2 implies
        #[trigger] groups[g1].0 != #[trigger] groups[g2].0 by {
        assert(groups[g1].0 == order[g1]);
        assert(groups[g2].0 == order[g2]);
    }
    assert forall|g: int| 0 <= g < groups.len() implies #[trigger] groups[g].1.len() > 0 by {
        assert(groups[g].0 == order[g]);
        let i = choose|i: int| 0 <= i < n && #[trigger] competition_of(rows[i]) == order[g];
        lemma_rows_with_props(rows, order[g], n);
        assert(rows_with(rows, order[g], n).contains(i as usize));
        if groups[g].1.len() == 0 {
            assert(rows_with(rows, order[g], n).len() == 0);
        }
    }
}

/// When every season in a group is an integer, the group lists its rows in
/// non-decreasing season value.
pub proof fn lemma_numeric_seasons_ascending(
    rows: Seq<Map<Seq<char>, Seq<char>>>,
    input: Seq<usize>,
    out: Seq<usize>,
)
    requires
        sorted_by_season(rows, input, out),
        forall|k: int| 0 <= k < out.len() ==> parse_i64_spec(season_of(rows[#[trigger] out[k] as int])) is Some,
    ensures
        forall|p: int, q: int| 0 <= p <= q < out.len() ==>
            parse_i64_spec(season_of(rows[#[trigger] out[p] as int]))->0
                <= parse_i64_spec(season_of(rows[#[trigger] out[q] as int]))->0,
{
    let v = |k: int| parse_i64_spec(season_of(rows[out[k] as int]))->0;
    assert forall|p: int| 0 <= p < out.len() - 1 implies #[trigger] v(p) <= v(p + 1) by {
        assert(row_season_order(rows, out[p + 1], out[p]) != Order::Less);
        assert(parse_i64_spec(season_of(rows[out[p] as int])) is Some);
        assert(parse_i64_spec(season_of(rows[out[p + 1] as int])) is Some);
    }
    assert forall|p: int, q: int| 0 <= p <= q < out.len() implies
        parse_i64_spec(season_of(rows[#[trigger] out[p] as int]))->0
            <= parse_i64_spec(season_of(rows[#[trigger] out[q] as int]))->0 by {
        lemma_chain_le(v, p, q);
    }
}

/// When no season in a group is an integer, the group lists its rows in
/// non-decreasing text order of season.
pub proof fn lemma_text_seasons_ascending(
    rows: Seq<Map<Seq<char>, Seq<char>>>,
    input: Seq<usize>,
    out: Seq<usize>,
)
    requires
        sorted_by_season(rows, input, out),
        forall|k: int| 0 <= k < out.len() ==> parse_i64_spec(season_of(rows[#[trigger] out[k] as int])) is None,
    ensures
        forall|p: int, q: int| 0 <= p < q < out.len() ==>
            lex_order(season_of(rows[#[trigger] out[p] as int]), season_of(rows[#[trigger] out[q] as int]))
                != Order::Greater,
{
    let t = |k: int| season_of(rows[out[k] as int]);
    assert forall|p: int| 0 <= p < out.len() - 1 implies lex_order(#[trigger] t(p), t(p + 1)) != Order::Greater by {
        assert(row_season_order(rows, out[p + 1], out[p]) != Order::Less);
        assert(parse_i64_spec(season_of(rows[out[p] as int])) is None);
        lemma_lex_antisym(t(p), t(p + 1));
    }
    assert forall|p: int, q: int| 0 <= p < q < out.len() implies
        lex_order(season_of(rows[#[trigger] out[p] as int]), season_of(rows[#[trigger] out[q] as int]))
            != Order::Greater by {
        lemma_chain_lex(t, p, q);
    }
}

proof fn lemma_chain_lex(t: spec_fn(int) -> Seq<char>, p: int, q: int)
    requires
        p <= q,
        forall|k: int| p <= k < q ==> lex_order(#[trigger] t(k), t(k + 1)) != Order::Greater,
    ensures
        lex_order(t(p), t(q)) != Order::Greater,
    decreases q - p,
{
    if p == q {
        crate::text::lemma_lex_equal(t(p), t(p));
    } else {
        lemma_chain_lex(t, p, q - 1);
        assert(lex_order(t(q - 1), t(q)) != Order::Greater);
        lemma_lex_le_trans(t(p), t(q - 1), t(q));
    }
}

proof fn lemma_lex_le_trans(a: Seq<char>, b: Seq<char>, c: Seq<char>)
    requires
        lex_order(a, b) != Order::Greater,
        lex_order(b, c) != Order::Greater,
    ensures
        lex_order(a, c) != Order::Greater,
{
    crate::text::lemma_lex_equal(a, b);
    crate::text::lemma_lex_equal(b, c);
    lemma_lex_antisym(a, c);
    if lex_order(a, b) == Order::Less && lex_order(b, c) == Order::Less {
        lemma_lex_trans(a, b, c);
    }
}

proof fn lemma_chain_le(v: spec_fn(int) -> int, p: int, q: int)
    requires
        p <= q,
        forall|k: int| p <= k < q ==> #[trigger] v(k) <= v(k + 1),
    ensures
        v(p) <= v(q),
    decreases q - p,
{
    if p < q {
        lemma_chain_le(v, p, q - 1);
        assert(v(q - 1) <= v(q));
    }
}


/// Two sequences, each strictly ascending under `lt`, with the same elements,
/// are equal, when `lt` is asymmetric on those elements.
pub proof fn lemma_ascending_unique<T>(a: Seq<T>, b: Seq<T>, lt: spec_fn(T, T) -> bool)
    requires
        forall|i: int, j: int| 0 <= i < j < a.len() ==> lt(#[trigger] a[i], #[trigger] a[j]),
        forall|i: int, j: int| 0 <= i < j < b.len() ==> lt(#[trigger] b[i], #[trigger] b[j]),
        forall|x: T, y: T| a.contains(x) && a.contains(y) && #[trigger] lt(x, y) ==> !lt(y, x),
        forall|x: T| a.contains(x) <==> b.contains(x),
    ensures
        a == b,
    decreases a.len(),
{
    if a.len() == 0 {
        if b.len() > 0 {
            assert(b.contains(b[0]));
        }
        assert(a =~= b);
    } else if b.len() == 0 {
        assert(a.contains(a[0]));
    } else {
        assert(a.contains(a[0]));
        assert(b.contains(b[0]));
        if a[0] != b[0] {
            let j = choose|j: int| 0 <= j < b.len() && b[j] == a[0];
            let i = choose|i: int| 0 <= i < a.len() && a[i] == b[0];
            assert(lt(b[0], b[j]));
            assert(lt(a[0], a[i]));
        }
        let a1 = a.drop_first();
        let b1 = b.drop_first();
        assert forall|x: T| a1.contains(x) <==> b1.contains(x) by {
            if a1.contains(x) {
                let k = choose|k: int| 0 <= k < a1.len() && a1[k] == x;
                assert(a[k + 1] == x);
                assert(lt(a[0], a[k + 1]));
                assert(a.contains(x));
                let m = choose|m: int| 0 <= m < b.len() && b[m] == x;
                assert(m != 0);
                assert(b1[m - 1] == x);
            }
            if b1.contains(x) {
                let k = choose|k: int| 0 <= k < b1.len() && b1[k] == x;
                assert(b[k + 1] == x);
                assert(lt(b[0], b[k + 1]));
                assert(b.contains(x));
                assert(a.contains(x));
                let m = choose|m: int| 0 <= m < a.len() && a[m] == x;
                assert(m != 0);
                assert(a1[m - 1] == x);
            }
        }
        assert forall|x: T, y: T| a1.contains(x) && a1.contains(y) && #[trigger] lt(x, y) implies !lt(y, x) by {
            let k = choose|k: int| 0 <= k < a1.len() && a1[k] == x;
            let m = choose|m: int| 0 <= m < a1.len() && a1[m] == y;
            assert(a[k + 1] == x);
            assert(a[m + 1] == y);
        }
        assert forall|i: int, j: int| 0 <= i < j < a1.len() implies lt(#[trigger] a1[i], #[trigger] a1[j]) by {
            assert(a1[i] == a[i + 1] && a1[j] == a[j + 1]);
        }
        assert forall|i: int, j: int| 0 <= i < j < b1.len() implies lt(#[trigger] b1[i], #[trigger] b1[j]) by {
            assert(b1[i] == b[i + 1] && b1[j] == b[j + 1]);
        }
        lemma_ascending_unique(a1, b1, lt);
        assert(a =~= seq![a[0]] + a1);
        assert(b =~= seq![b[0]] + b1);
    }
}

/// Two member lists of the same column are equal.
pub proof fn lemma_members_unique(
    rows: Seq<Map<Seq<char>, Seq<char>>>,
    key: Seq<char>,
    m1: Seq<Seq<char>>,
    m2: Seq<Seq<char>>,
)
    requires
        members_match(rows, key, m1),
        members_match(rows, key, m2),
    ensures
        m1 == m2,
{
    let lt = |x: Seq<char>, y: Seq<char>| lex_lt(x, y);
    assert forall|x: Seq<char>, y: Seq<char>| m1.contains(x) && m1.contains(y) && #[trigger] lt(x, y) implies !lt(y, x) by {
        lemma_lex_antisym(x, y);
    }
    assert forall|i: int, j: int| 0 <= i < j < m1.len() implies lt(#[trigger] m1[i], #[trigger] m1[j]) by {}
    assert forall|i: int, j: int| 0 <= i < j < m2.len() implies lt(#[trigger] m2[i], #[trigger] m2[j]) by {}
    assert forall|x: Seq<char>| m1.contains(x) <==> m2.contains(x) by {
        assert(m1.contains(x) <==> value_present(rows, key, x, rows.len()));
    }
    lemma_ascending_unique(m1, m2, lt);
}

/// Within each competition, season order is transitive over the seasons of
/// its rows. It always is when the seasons are all integers or all
/// non-integers; mixing them inside one competition can make it cyclic (`"2"`
/// before `"10"` by value, `"10"` before `"1a"` and `"1a"` before `"2"` as
/// text).
pub open spec fn seasons_transitive(rows: Seq<Map<Seq<char>, Seq<char>>>) -> bool {
    forall|i: usize, j: usize, k: usize|
        #![trigger row_season_order(rows, i, j), row_season_order(rows, j, k)]
        i < rows.len() && j < rows.len() && k < rows.len()
            && competition_of(rows[i as int]) == competition_of(rows[j as int])
            && competition_of(rows[j as int]) == competition_of(rows[k as int])
            && row_season_order(rows, i, j) != Order::Greater
            && row_season_order(rows, j, k) != Order::Greater ==> row_season_order(rows, i, k) != Order::Greater
}

/// Row `x` comes before row `y` in a stable season sort: an earlier season,
/// or the same season and an earlier row.
pub open spec fn season_before(rows: Seq<Map<Seq<char>, Seq<char>>>, x: usize, y: usize) -> bool {
    ||| row_season_order(rows, x, y) == Order::Less
    ||| row_season_order(rows, x, y) == Order::Equal && x < y
}

proof fn lemma_season_le_chain(
    rows: Seq<Map<Seq<char>, Seq<char>>>,
    c: Seq<char>,
    input: Seq<usize>,
    out: Seq<usize>,
    p: int,
    q: int,
)
    requires
        sorted_by_season(rows, input, out),
        seasons_transitive(rows),
        forall|k: usize| input.contains(k) ==> k < rows.len() && competition_of(rows[k as int]) == c,
        0 <= p <= q < out.len(),
    ensures
        row_season_order(rows, out[p], out[q]) != Order::Greater,
    decreases q - p,
{
    assert(out.contains(out[p]));
    assert(out.contains(out[q]));
    if p == q {
        lemma_season_antisym(season_of(rows[out[p] as int]), season_of(rows[out[p] as int]));
    } else {
        lemma_season_le_chain(rows, c, input, out, p, q - 1);
        assert(out.contains(out[q - 1]));
        assert(row_season_order(rows, out[q], out[q - 1]) != Order::Less);
        lemma_season_antisym(season_of(rows[out[q] as int]), season_of(rows[out[q - 1] as int]));
        assert(row_season_order(rows, out[q - 1], out[q]) != Order::Greater);
    }
}

/// Two season orderings of the rows of one competition are equal when season
/// order is transitive within competitions.
pub proof fn lemma_sorted_by_season_unique(
    rows: Seq<Map<Seq<char>, Seq<char>>>,
    c: Seq<char>,
    input: Seq<usize>,
    o1: Seq<usize>,
    o2: Seq<usize>,
)
    requires
        sorted_by_season(rows, input, o1),
        sorted_by_season(rows, input, o2),
        seasons_transitive(rows),
        forall|k: usize| input.contains(k) ==> k < rows.len() && competition_of(rows[k as int]) == c,
    ensures
        o1 == o2,
{
    let lt = |x: usize, y: usize| season_before(rows, x, y);
    assert forall|i: int, j: int| 0 <= i < j < o1.len() implies lt(#[trigger] o1[i], #[trigger] o1[j]) by {
        lemma_season_le_chain(rows, c, input, o1, i, j);
    }
    assert forall|i: int, j: int| 0 <= i < j < o2.len() implies lt(#[trigger] o2[i], #[trigger] o2[j]) by {
        lemma_season_le_chain(rows, c, input, o2, i, j);
    }
    assert forall|x: usize, y: usize| o1.contains(x) && o1.contains(y) && #[trigger] lt(x, y) implies !lt(y, x) by {
        lemma_season_antisym(season_of(rows[x as int]), season_of(rows[y as int]));
        lemma_season_antisym(season_of(rows[y as int]), season_of(rows[x as int]));
    }
    assert forall|x: usize| o1.contains(x) <==> o2.contains(x) by {
        assert(o1.contains(x) <==> input.contains(x));
        assert(o2.contains(x) <==> input.contains(x));
    }
    lemma_ascending_unique(o1, o2, lt);
}

/// Two groupings of the same rows are equal when season order is transitive
/// within each competition.
pub proof fn lemma_groups_unique(
    rows: Seq<Map<Seq<char>, Seq<char>>>,
    g1: Seq<(Seq<char>, Seq<usize>)>,
    g2: Seq<(Seq<char>, Seq<usize>)>,
)
    requires
        groups_match(rows, g1),
        groups_match(rows, g2),
        seasons_transitive(rows),
        rows.len() <= usize::MAX,
    ensures
        g1 == g2,
{
    let order = competition_order(rows, rows.len());
    assert forall|g: int| 0 <= g < g1.len() implies #[trigger] g1[g] == g2[g] by {
        assert(g1[g].0 == order[g]);
        assert(g2[g].0 == order[g]);
        lemma_rows_with_props(rows, order[g], rows.len());
        let input = rows_with(rows, order[g], rows.len());
        assert forall|k: usize| input.contains(k) implies k < rows.len() && competition_of(rows[k as int]) == order[g] by {}
        lemma_sorted_by_season_unique(rows, order[g], input, g1[g].1, g2[g].1);
    }
    assert(g1 =~= g2);
}

/// Season order is transitive within competitions when the seasons of the
/// rows are all integers, or all non-integers.
pub proof fn lemma_uniform_seasons_transitive(rows: Seq<Map<Seq<char>, Seq<char>>>)
    requires
        (forall|i: int| 0 <= i < rows.len() ==> parse_i64_spec(season_of(#[trigger] rows[i])) is Some)
            || (forall|i: int| 0 <= i < rows.len() ==> parse_i64_spec(season_of(#[trigger] rows[i])) is None),
    ensures
        seasons_transitive(rows),
{
    assert forall|i: usize, j: usize, k: usize|
        i < rows.len() && j < rows.len() && k < rows.len() && #[trigger] row_season_order(rows, i, j) != Order::Greater
            && #[trigger] row_season_order(rows, j, k) != Order::Greater implies row_season_order(rows, i, k)
            != Order::Greater by {
        let a = season_of(rows[i as int]);
        let b = season_of(rows[j as int]);
        let c = season_of(rows[k as int]);
        if parse_i64_spec(a) is None {
            assert(parse_i64_spec(b) is None && parse_i64_spec(c) is None);
            lemma_lex_le_trans(a, b, c);
        }
    }
}

} // verus!
