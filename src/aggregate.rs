use vstd::prelude::*;
use vstd::utf8::encode_utf8;

use crate::civil::{before, is_before, not_after, CivilDateTime};
use crate::error::SalesError;
use crate::order::{bytes_cmp, compare_bytes, lemma_bytes_cmp_facts, lemma_bytes_cmp_trans};
use crate::window::{window_of, window_spec_of, Window, WindowSpec};

verus! {

/// One sale: when, what, how many, and its price.
#[derive(Clone, Debug)]
pub struct Row {
    pub timestamp: CivilDateTime,
    pub category: String,
    pub quantity: u32,
    pub measure: u64,
}

/// The summary of one group: its window (if windowed), its category (if
/// grouped by category), its label (if windowed) and the sum of the measures
/// of its rows.
#[derive(Clone, Debug)]
pub struct AggregateRow {
    pub window: Option<Window>,
    pub category: Option<String>,
    pub label: Option<CivilDateTime>,
    pub total: u64,
}

/// Categories are compared by their UTF-8 bytes.
#[verifier::opaque]
pub open spec fn cat_view(s: String) -> Seq<u8> {
    encode_utf8(s@)
}

pub open spec fn opt_cat_view(s: Option<String>) -> Option<Seq<u8>> {
    match s {
        Some(c) => Some(cat_view(c)),
        None => None,
    }
}

/// The group a row falls in.
pub open spec fn row_key(r: Row, ws: Option<WindowSpec>, by_cat: bool) -> (
    Option<Window>,
    Option<Seq<u8>>,
) {
    (
        match ws {
            Some(w) => Some(window_spec_of(r.timestamp, w)),
            None => None,
        },
        if by_cat { Some(cat_view(r.category)) } else { None },
    )
}

/// The group an output row stands for.
pub open spec fn agg_key(a: AggregateRow) -> (Option<Window>, Option<Seq<u8>>) {
    (a.window, opt_cat_view(a.category))
}

pub open spec fn window_cmp(a: Option<Window>, b: Option<Window>) -> int {
    match (a, b) {
        (None, None) => 0,
        (None, Some(_)) => -1,
        (Some(_), None) => 1,
        (Some(x), Some(y)) => if before(x.start, y.start) {
            -1
        } else if before(y.start, x.start) {
            1
        } else if before(x.end, y.end) {
            -1
        } else if before(y.end, x.end) {
            1
        } else {
            0
        },
    }
}

pub open spec fn opt_bytes_cmp(a: Option<Seq<u8>>, b: Option<Seq<u8>>) -> int {
    match (a, b) {
        (None, None) => 0,
        (None, Some(_)) => -1,
        (Some(_), None) => 1,
        (Some(x), Some(y)) => bytes_cmp(x, y),
    }
}

/// Output order: by window start (then end), then by category bytes.
#[verifier::opaque]
pub open spec fn key_cmp(a: (Option<Window>, Option<Seq<u8>>), b: (Option<Window>, Option<Seq<u8>>)) -> int {
    let c = window_cmp(a.0, b.0);
    if c != 0 { c } else { opt_bytes_cmp(a.1, b.1) }
}

pub proof fn lemma_key_cmp_facts(a: (Option<Window>, Option<Seq<u8>>), b: (Option<Window>, Option<Seq<u8>>))
    ensures
        -1 <= key_cmp(a, b) <= 1,
        key_cmp(a, b) == 0 <==> a == b,
        key_cmp(b, a) == -key_cmp(a, b),
{
    reveal(key_cmp);
    if a.1 is Some && b.1 is Some {
        lemma_bytes_cmp_facts(a.1->0, b.1->0);
    }
}

pub proof fn lemma_key_cmp_trans(
    a: (Option<Window>, Option<Seq<u8>>),
    b: (Option<Window>, Option<Seq<u8>>),
    c: (Option<Window>, Option<Seq<u8>>),
)
    requires
        key_cmp(a, b) == -1,
        key_cmp(b, c) == -1,
    ensures
        key_cmp(a, c) == -1,
{
    reveal(key_cmp);
    lemma_key_cmp_facts(a, b);
    lemma_key_cmp_facts(b, c);
    if a.1 is Some && b.1 is Some && c.1 is Some {
        lemma_bytes_cmp_facts(a.1->0, b.1->0);
        lemma_bytes_cmp_facts(b.1->0, c.1->0);
        lemma_bytes_cmp_facts(a.1->0, c.1->0);
        if bytes_cmp(a.1->0, b.1->0) == -1 && bytes_cmp(b.1->0, c.1->0) == -1 {
            lemma_bytes_cmp_trans(a.1->0, b.1->0, c.1->0);
        }
    }
}

/// Sum of the measures of the first `n` rows that fall in group `k`.
pub open spec fn group_total(
    rows: Seq<Row>,
    n: nat,
    ws: Option<WindowSpec>,
    by_cat: bool,
    k: (Option<Window>, Option<Seq<u8>>),
) -> nat
    decreases n,
{
    if n == 0 {
        0
    } else {
        group_total(rows, (n - 1) as nat, ws, by_cat, k) + if row_key(rows[n - 1], ws, by_cat) == k {
            rows[n - 1].measure as nat
        } else {
            0
        }
    }
}

#[verifier::opaque]
pub open spec fn strictly_sorted(v: Seq<AggregateRow>) -> bool {
    forall|i: int, j: int|
        0 <= i < j < v.len() ==> #[trigger] key_cmp(agg_key(v[i]), agg_key(v[j])) == -1
}

/// Every one of the first `n` rows has its group in `v`.
#[verifier::opaque]
pub open spec fn covers(rows: Seq<Row>, n: nat, ws: Option<WindowSpec>, by_cat: bool, v: Seq<AggregateRow>) -> bool {
    forall|j: int|
        0 <= j < n ==> exists|i: int|
            0 <= i < v.len() && #[trigger] agg_key(v[i]) == #[trigger] row_key(rows[j], ws, by_cat)
}

/// Every group in `v` is the group of one of the first `n` rows.
#[verifier::opaque]
pub open spec fn grounded(rows: Seq<Row>, n: nat, ws: Option<WindowSpec>, by_cat: bool, v: Seq<AggregateRow>) -> bool {
    forall|i: int|
        0 <= i < v.len() ==> exists|j: int|
            0 <= j < n && #[trigger] row_key(rows[j], ws, by_cat) == #[trigger] agg_key(v[i])
}

/// Every entry of `v` holds the sum of its group over the first `n` rows.
#[verifier::opaque]
pub open spec fn totals_ok(rows: Seq<Row>, n: nat, ws: Option<WindowSpec>, by_cat: bool, v: Seq<AggregateRow>) -> bool {
    forall|i: int|
        0 <= i < v.len() ==> #[trigger] v[i].total == group_total(rows, n, ws, by_cat, agg_key(v[i]))
}

/// Row `j` is the first of the first `n` rows that falls in group `k`.
pub open spec fn first_of_group(
    rows: Seq<Row>,
    n: nat,
    ws: Option<WindowSpec>,
    by_cat: bool,
    k: (Option<Window>, Option<Seq<u8>>),
    j: int,
) -> bool {
    &&& 0 <= j < n
    &&& row_key(rows[j], ws, by_cat) == k
    &&& forall|i: int| 0 <= i < j ==> row_key(rows[i], ws, by_cat) != k
}

/// The label of a group: its window start when truncating, else the timestamp
/// of its first row; no label without windows.
pub open spec fn label_of(a: AggregateRow, rows: Seq<Row>, n: nat, ws: Option<WindowSpec>, by_cat: bool) -> bool {
    match ws {
        None => a.label is None,
        Some(w) => if w.truncate_to_window_start {
            a.window is Some && a.label == Some(a.window->0.start)
        } else {
            exists|j: int| #[trigger]
                first_of_group(rows, n, ws, by_cat, agg_key(a), j) && a.label == Some(rows[j].timestamp)
        },
    }
}

/// Every entry of `v` carries the label of its group over the first `n` rows.
#[verifier::opaque]
pub open spec fn labels_ok(rows: Seq<Row>, n: nat, ws: Option<WindowSpec>, by_cat: bool, v: Seq<AggregateRow>) -> bool {
    forall|i: int| 0 <= i < v.len() ==> label_of(#[trigger] v[i], rows, n, ws, by_cat)
}

/// `v` aggregates the first `n` rows: one entry per group present, in output
/// order, each with the sum of its group and its label.
pub open spec fn aggregates(rows: Seq<Row>, n: nat, ws: Option<WindowSpec>, by_cat: bool, v: Seq<AggregateRow>) -> bool {
    &&& strictly_sorted(v)
    &&& covers(rows, n, ws, by_cat, v)
    &&& grounded(rows, n, ws, by_cat, v)
    &&& totals_ok(rows, n, ws, by_cat, v)
    &&& labels_ok(rows, n, ws, by_cat, v)
    &&& sum_of_totals(v) == sum_of_measures(rows, n)
}

/// Sum of the totals of the entries of `v`.
pub open spec fn sum_of_totals(v: Seq<AggregateRow>) -> nat
    decreases v.len(),
{
    if v.len() == 0 {
        0
    } else {
        sum_of_totals(v.drop_last()) + v.last().total as nat
    }
}

/// Sum of the measures of the first `n` rows.
pub open spec fn sum_of_measures(rows: Seq<Row>, n: nat) -> nat
    decreases n,
{
    if n == 0 {
        0
    } else {
        sum_of_measures(rows, (n - 1) as nat) + rows[n - 1].measure as nat
    }
}

pub open spec fn timestamps_sorted(rows: Seq<Row>) -> bool {
    forall|i: int| 0 < i < rows.len() ==> not_after(#[trigger] rows[i - 1].timestamp, rows[i].timestamp)
}

/// `k` is the first index whose timestamp is earlier than the one before it.
pub open spec fn first_unsorted_at(rows: Seq<Row>, k: int) -> bool {
    &&& 0 < k < rows.len()
    &&& before(rows[k].timestamp, rows[k - 1].timestamp)
    &&& forall|i: int| 0 < i < k ==> not_after(#[trigger] rows[i - 1].timestamp, rows[i].timestamp)
}

pub open spec fn some_total_overflows(rows: Seq<Row>, ws: Option<WindowSpec>, by_cat: bool) -> bool {
    exists|j: int|
        0 <= j < rows.len() && group_total(rows, rows.len(), ws, by_cat, #[trigger] row_key(rows[j], ws, by_cat))
            > u64::MAX
}

/// Finds the first index at which timestamps decrease.
pub fn first_unsorted(rows: &Vec<Row>) -> (r: Option<usize>)
    ensures
        r is None <==> timestamps_sorted(rows@),
        r matches Some(k) ==> first_unsorted_at(rows@, k as int),
{
    let mut i: usize = 1;
    while i < rows.len()
        invariant
            1 <= i,
            i <= rows@.len() || rows@.len() == 0,
            forall|k: int| 0 < k < i && k < rows@.len() ==> not_after(#[trigger] rows@[k - 1].timestamp, rows@[k].timestamp),
        decreases rows@.len() - i,
    {
        if is_before(&rows[i].timestamp, &rows[i - 1].timestamp) {
            return Some(i);
        }
        i = i + 1;
    }
    None
}

/// Checks that timestamps never decrease; returns the rows unchanged if so.
pub fn ensure_sorted(rows: Vec<Row>) -> (r: Result<Vec<Row>, SalesError>)
    ensures
        timestamps_sorted(rows@) ==> (r matches Ok(v) && v@ == rows@),
        !timestamps_sorted(rows@) ==> (r matches Err(SalesError::UnsortedInput { index })
            && first_unsorted_at(rows@, index as int)),
{
    match first_unsorted(&rows) {
        None => Ok(rows),
        Some(index) => Err(SalesError::UnsortedInput { index }),
    }
}

fn compare_windows(a: &Option<Window>, b: &Option<Window>) -> (r: i8)
    ensures
        r as int == window_cmp(*a, *b),
{
    match (a, b) {
        (None, None) => 0,
        (None, Some(_)) => -1,
        (Some(_), None) => 1,
        (Some(x), Some(y)) => {
            if is_before(&x.start, &y.start) {
                -1
            } else if is_before(&y.start, &x.start) {
                1
            } else if is_before(&x.end, &y.end) {
                -1
            } else if is_before(&y.end, &x.end) {
                1
            } else {
                0
            }
        },
    }
}

fn compare_categories(a: &Option<String>, b: &Option<String>) -> (r: i8)
    ensures
        r as int == opt_bytes_cmp(opt_cat_view(*a), opt_cat_view(*b)),
{
    reveal(cat_view);
    match (a, b) {
        (None, None) => 0,
        (None, Some(_)) => -1,
        (Some(_), None) => 1,
        (Some(x), Some(y)) => compare_bytes(x.as_str().as_bytes(), y.as_str().as_bytes()),
    }
}

/// Compares the groups of two output rows in output order.
pub fn compare_groups(a: &AggregateRow, b: &AggregateRow) -> (r: i8)
    ensures
        r as int == key_cmp(agg_key(*a), agg_key(*b)),
{
    reveal(key_cmp);
    let c = compare_windows(&a.window, &b.window);
    if c != 0 {
        c
    } else {
        compare_categories(&a.category, &b.category)
    }
}

proof fn lemma_group_total_mono(rows: Seq<Row>, m: nat, n: nat, ws: Option<WindowSpec>, by_cat: bool, k: (Option<Window>, Option<Seq<u8>>))
    requires
        m <= n,
    ensures
        group_total(rows, m, ws, by_cat, k) <= group_total(rows, n, ws, by_cat, k),
    decreases n - m,
{
    if m < n {
        lemma_group_total_mono(rows, m, (n - 1) as nat, ws, by_cat, k);
    }
}

/// Sums the measures of `rows` per group: per calendar window of `ws` when it
/// is given, per category when `by_cat` holds, both, or neither (one grand
/// total). Windowed aggregation demands timestamps in non-decreasing order.
pub fn aggregate(rows: &Vec<Row>, ws: Option<WindowSpec>, by_cat: bool) -> (r: Result<Vec<AggregateRow>, SalesError>)
    requires
        forall|i: int| 0 <= i < rows@.len() ==> (#[trigger] rows@[i]).timestamp.wf(),
    ensures
        (ws is Some && !timestamps_sorted(rows@)) <==> r is Err && r->Err_0 is UnsortedInput,
        r matches Err(SalesError::UnsortedInput { index }) ==> first_unsorted_at(rows@, index as int),
        r == Err::<Vec<AggregateRow>, SalesError>(SalesError::ArithmeticOverflow) <==> (
            (ws is None || timestamps_sorted(rows@)) && some_total_overflows(rows@, ws, by_cat)),
        r is Err ==> (r->Err_0 is UnsortedInput || r->Err_0 is ArithmeticOverflow),
        r matches Ok(v) ==> aggregates(rows@, rows@.len(), ws, by_cat, v@),
{
    if ws.is_some() {
        match first_unsorted(rows) {
            Some(index) => {
                return Err(SalesError::UnsortedInput { index });
            },
            None => {},
        }
    }
    let mut acc: Vec<AggregateRow> = Vec::new();
    let mut idx: usize = 0;
    proof {
        reveal(strictly_sorted);
        reveal(covers);
        reveal(grounded);
        reveal(totals_ok);
        reveal(labels_ok);
    }
    while idx < rows.len()
        invariant
            idx <= rows@.len(),
            ws is None || timestamps_sorted(rows@),
            forall|i: int| 0 <= i < rows@.len() ==> (#[trigger] rows@[i]).timestamp.wf(),
            aggregates(rows@, idx as nat, ws, by_cat, acc@),
        decreases rows@.len() - idx,
    {
        let row = &rows[idx];
        let (window, label) = match ws {
            Some(w) => {
                let win = window_of(row.timestamp, &w);
                let label = if w.truncate_to_window_start { win.start } else { row.timestamp };
                (Some(win), Some(label))
            },
            None => (None, None),
        };
        let category = if by_cat { Some(row.category.clone()) } else { None };
        let cand = AggregateRow { window, category, label, total: row.measure };
        let ghost k = row_key(rows@[idx as int], ws, by_cat);
        assert(agg_key(cand) == k);
        let ghost old_acc = acc@;
        let (p, c) = find_slot(&acc, &cand);
        if p < acc.len() && c == 0 {
            let old = acc.remove(p);
            if old.total > u64::MAX - row.measure {
                proof {
                    lemma_key_cmp_facts(agg_key(old_acc[p as int]), k);
                    lemma_entry_total(rows@, idx as nat, ws, by_cat, old_acc, p as int);
                    lemma_group_total_step(rows@, idx as nat, ws, by_cat, k);
                    lemma_group_total_mono(rows@, (idx + 1) as nat, rows@.len(), ws, by_cat, k);
                    assert(group_total(rows@, rows@.len(), ws, by_cat, row_key(rows@[idx as int], ws, by_cat)) > u64::MAX);
                }
                return Err(SalesError::ArithmeticOverflow);
            }
            let updated = AggregateRow { total: old.total + row.measure, ..old };
            acc.insert(p, updated);
            proof {
                lemma_key_cmp_facts(agg_key(old_acc[p as int]), k);
                assert(acc@ =~= old_acc.update(p as int, updated));
                lemma_merge_into_group(rows@, idx as nat, ws, by_cat, old_acc, p as int, updated);
            }
        } else {
            acc.insert(p, cand);
            proof {
                if p < old_acc.len() {
                    lemma_key_cmp_facts(agg_key(old_acc[p as int]), k);
                }
                lemma_open_group(rows@, idx as nat, ws, by_cat, old_acc, p as int, cand);
            }
        }
        idx = idx + 1;
    }
    proof {
        lemma_totals_fit(rows@, ws, by_cat, acc@);
    }
    Ok(acc)
}

proof fn lemma_group_total_absent(rows: Seq<Row>, n: nat, ws: Option<WindowSpec>, by_cat: bool, k: (Option<Window>, Option<Seq<u8>>))
    requires
        forall|j: int| 0 <= j < n ==> row_key(rows[j], ws, by_cat) != k,
    ensures
        group_total(rows, n, ws, by_cat, k) == 0,
    decreases n,
{
    if n > 0 {
        lemma_group_total_absent(rows, (n - 1) as nat, ws, by_cat, k);
    }
}

fn find_slot(acc: &Vec<AggregateRow>, cand: &AggregateRow) -> (r: (usize, i8))
    ensures
        r.0 <= acc@.len(),
        forall|i: int| 0 <= i < r.0 ==> key_cmp(#[trigger] agg_key(acc@[i]), agg_key(*cand)) == -1,
        r.0 < acc@.len() ==> r.1 as int == key_cmp(agg_key(acc@[r.0 as int]), agg_key(*cand)) && r.1 != -1,
{
    let mut p: usize = 0;
    while p < acc.len()
        invariant
            p <= acc@.len(),
            forall|i: int| 0 <= i < p ==> key_cmp(#[trigger] agg_key(acc@[i]), agg_key(*cand)) == -1,
        decreases acc@.len() - p,
    {
        let c = compare_groups(&acc[p], cand);
        if c != -1 {
            return (p, c);
        }
        p = p + 1;
    }
    (p, 1)
}

proof fn lemma_group_total_step(rows: Seq<Row>, n: nat, ws: Option<WindowSpec>, by_cat: bool, k: (Option<Window>, Option<Seq<u8>>))
    requires
        n < rows.len(),
    ensures
        group_total(rows, n + 1, ws, by_cat, k) == group_total(rows, n, ws, by_cat, k)
            + if row_key(rows[n as int], ws, by_cat) == k { rows[n as int].measure as nat } else { 0 },
{
}

proof fn lemma_merge_into_group(
    rows: Seq<Row>,
    n: nat,
    ws: Option<WindowSpec>,
    by_cat: bool,
    acc: Seq<AggregateRow>,
    p: int,
    updated: AggregateRow,
)
    requires
        n < rows.len(),
        aggregates(rows, n, ws, by_cat, acc),
        0 <= p < acc.len(),
        agg_key(acc[p]) == row_key(rows[n as int], ws, by_cat),
        agg_key(updated) == agg_key(acc[p]),
        updated.label == acc[p].label,
        updated.total == acc[p].total + rows[n as int].measure,
    ensures
        aggregates(rows, n + 1, ws, by_cat, acc.update(p, updated)),
{
    let v = acc.update(p, updated);
    assert forall|i: int| 0 <= i < v.len() implies agg_key(#[trigger] v[i]) == agg_key(acc[i]) by {}
    reveal(strictly_sorted);
    assert(strictly_sorted(v)) by {
        assert forall|a: int, b: int| 0 <= a < b < v.len() implies #[trigger] key_cmp(agg_key(v[a]), agg_key(v[b])) == -1 by {
            assert(agg_key(v[a]) == agg_key(acc[a]));
            assert(agg_key(v[b]) == agg_key(acc[b]));
        }
    }
    lemma_merge_covers(rows, n, ws, by_cat, acc, v, p);
    lemma_merge_grounded(rows, n, ws, by_cat, acc, p, updated);
    lemma_merge_totals(rows, n, ws, by_cat, acc, p, updated);
    lemma_merge_labels(rows, n, ws, by_cat, acc, p, updated);
    lemma_sum_update(acc, p, updated);
}

proof fn lemma_merge_covers(rows: Seq<Row>, n: nat, ws: Option<WindowSpec>, by_cat: bool, acc: Seq<AggregateRow>, v: Seq<AggregateRow>, p: int)
    requires
        n < rows.len(),
        covers(rows, n, ws, by_cat, acc),
        0 <= p < acc.len(),
        v.len() == acc.len(),
        forall|i: int| 0 <= i < v.len() ==> agg_key(#[trigger] v[i]) == agg_key(acc[i]),
        agg_key(acc[p]) == row_key(rows[n as int], ws, by_cat),
    ensures
        covers(rows, n + 1, ws, by_cat, v),
{
    reveal(covers);
    assert forall|j: int| 0 <= j < n + 1 implies exists|i: int|
        0 <= i < v.len() && #[trigger] agg_key(v[i]) == #[trigger] row_key(rows[j], ws, by_cat) by {
        if j < n {
            let i = choose|i: int| 0 <= i < acc.len() && #[trigger] agg_key(acc[i]) == #[trigger] row_key(rows[j], ws, by_cat);
            assert(agg_key(v[i]) == agg_key(acc[i]));
        } else {
            assert(agg_key(v[p]) == row_key(rows[j], ws, by_cat));
        }
    }
}

proof fn lemma_merge_grounded(rows: Seq<Row>, n: nat, ws: Option<WindowSpec>, by_cat: bool, acc: Seq<AggregateRow>, p: int, updated: AggregateRow)
    requires
        grounded(rows, n, ws, by_cat, acc),
        0 <= p < acc.len(),
        agg_key(updated) == agg_key(acc[p]),
    ensures
        grounded(rows, n + 1, ws, by_cat, acc.update(p, updated)),
{
    reveal(grounded);
    let v = acc.update(p, updated);
    assert forall|i: int| 0 <= i < v.len() implies exists|j: int|
        0 <= j < n + 1 && #[trigger] row_key(rows[j], ws, by_cat) == #[trigger] agg_key(v[i]) by {
        assert(agg_key(v[i]) == agg_key(acc[i]));
        let j = choose|j: int| 0 <= j < n && #[trigger] row_key(rows[j], ws, by_cat) == #[trigger] agg_key(acc[i]);
        assert(0 <= j < n + 1 && row_key(rows[j], ws, by_cat) == agg_key(v[i]));
    }
}

proof fn lemma_merge_totals(rows: Seq<Row>, n: nat, ws: Option<WindowSpec>, by_cat: bool, acc: Seq<AggregateRow>, p: int, updated: AggregateRow)
    requires
        n < rows.len(),
        totals_ok(rows, n, ws, by_cat, acc),
        strictly_sorted(acc),
        0 <= p < acc.len(),
        agg_key(acc[p]) == row_key(rows[n as int], ws, by_cat),
        agg_key(updated) == agg_key(acc[p]),
        updated.total == acc[p].total + rows[n as int].measure,
    ensures
        totals_ok(rows, n + 1, ws, by_cat, acc.update(p, updated)),
{
    reveal(totals_ok);
    reveal(strictly_sorted);
    let v = acc.update(p, updated);
    assert forall|i: int| 0 <= i < v.len() implies #[trigger] v[i].total == group_total(rows, n + 1, ws, by_cat, agg_key(v[i])) by {
        lemma_group_total_step(rows, n, ws, by_cat, agg_key(v[i]));
        assert(acc[i].total == group_total(rows, n, ws, by_cat, agg_key(acc[i])));
        if i != p {
            lemma_key_cmp_facts(agg_key(acc[i]), agg_key(acc[p]));
            if i < p {
                assert(key_cmp(agg_key(acc[i]), agg_key(acc[p])) == -1);
            } else {
                assert(key_cmp(agg_key(acc[p]), agg_key(acc[i])) == -1);
            }
        }
    }
}

proof fn lemma_open_group(
    rows: Seq<Row>,
    n: nat,
    ws: Option<WindowSpec>,
    by_cat: bool,
    acc: Seq<AggregateRow>,
    p: int,
    cand: AggregateRow,
)
    requires
        n < rows.len(),
        aggregates(rows, n, ws, by_cat, acc),
        0 <= p <= acc.len(),
        forall|i: int| 0 <= i < p ==> key_cmp(#[trigger] agg_key(acc[i]), agg_key(cand)) == -1,
        p < acc.len() ==> key_cmp(agg_key(acc[p]), agg_key(cand)) == 1,
        agg_key(cand) == row_key(rows[n as int], ws, by_cat),
        cand.total == rows[n as int].measure,
        cand.label == label_for(rows[n as int], ws),
    ensures
        aggregates(rows, n + 1, ws, by_cat, acc.insert(p, cand)),
{
    let k = agg_key(cand);
    let v = acc.insert(p, cand);
    lemma_slot_absent(acc, p, k);
    lemma_open_sorted(acc, p, cand);
    assert forall|i: int| 0 <= i < acc.len() implies #[trigger] acc[i] == v[if i < p { i } else { i + 1 }] by {}
    assert forall|i: int| 0 <= i < v.len() && i != p implies #[trigger] v[i] == acc[if i < p { i } else { i - 1 }] by {}
    lemma_open_covers(rows, n, ws, by_cat, acc, p, cand);
    lemma_open_grounded(rows, n, ws, by_cat, acc, p, cand);
    lemma_open_totals(rows, n, ws, by_cat, acc, p, cand);
    lemma_no_earlier_row(rows, n, ws, by_cat, acc, k);
    lemma_open_labels(rows, n, ws, by_cat, acc, p, cand);
    lemma_sum_insert(acc, p, cand);
}

proof fn lemma_slot_absent(acc: Seq<AggregateRow>, p: int, k: (Option<Window>, Option<Seq<u8>>))
    requires
        strictly_sorted(acc),
        0 <= p <= acc.len(),
        forall|i: int| 0 <= i < p ==> key_cmp(#[trigger] agg_key(acc[i]), k) == -1,
        p < acc.len() ==> key_cmp(agg_key(acc[p]), k) == 1,
    ensures
        forall|i: int| 0 <= i < acc.len() ==> agg_key(#[trigger] acc[i]) != k,
{
    reveal(strictly_sorted);
    assert forall|i: int| 0 <= i < acc.len() implies agg_key(#[trigger] acc[i]) != k by {
        if i < p {
            lemma_key_cmp_facts(agg_key(acc[i]), k);
        } else {
            lemma_key_cmp_facts(agg_key(acc[p]), k);
            if i > p {
                assert(key_cmp(agg_key(acc[p]), agg_key(acc[i])) == -1);
                lemma_key_cmp_trans(k, agg_key(acc[p]), agg_key(acc[i]));
                lemma_key_cmp_facts(k, agg_key(acc[i]));
            }
        }
    }
}

proof fn lemma_open_sorted(acc: Seq<AggregateRow>, p: int, cand: AggregateRow)
    requires
        strictly_sorted(acc),
        0 <= p <= acc.len(),
        forall|i: int| 0 <= i < p ==> key_cmp(#[trigger] agg_key(acc[i]), agg_key(cand)) == -1,
        p < acc.len() ==> key_cmp(agg_key(acc[p]), agg_key(cand)) == 1,
    ensures
        strictly_sorted(acc.insert(p, cand)),
{
    reveal(strictly_sorted);
    let k = agg_key(cand);
    let v = acc.insert(p, cand);
    assert forall|a: int, b: int| 0 <= a < b < v.len() implies #[trigger] key_cmp(agg_key(v[a]), agg_key(v[b])) == -1 by {
        let a0 = if a < p { a } else { a - 1 };
        let b0 = if b < p { b } else { b - 1 };
        if a == p {
            lemma_key_cmp_facts(agg_key(acc[p]), k);
            assert(v[b] == acc[b0]);
            if b0 > p {
                lemma_key_cmp_trans(k, agg_key(acc[p]), agg_key(acc[b0]));
            }
        } else if b == p {
            assert(v[a] == acc[a0]);
        } else {
            assert(v[a] == acc[a0]);
            assert(v[b] == acc[b0]);
            assert(key_cmp(agg_key(acc[a0]), agg_key(acc[b0])) == -1);
        }
    }
}

proof fn lemma_open_covers(rows: Seq<Row>, n: nat, ws: Option<WindowSpec>, by_cat: bool, acc: Seq<AggregateRow>, p: int, cand: AggregateRow)
    requires
        n < rows.len(),
        covers(rows, n, ws, by_cat, acc),
        0 <= p <= acc.len(),
        agg_key(cand) == row_key(rows[n as int], ws, by_cat),
    ensures
        covers(rows, n + 1, ws, by_cat, acc.insert(p, cand)),
{
    reveal(covers);
    let v = acc.insert(p, cand);
    assert forall|j: int| 0 <= j < n + 1 implies exists|i: int|
        0 <= i < v.len() && #[trigger] agg_key(v[i]) == #[trigger] row_key(rows[j], ws, by_cat) by {
        if j < n {
            let i = choose|i: int| 0 <= i < acc.len() && #[trigger] agg_key(acc[i]) == #[trigger] row_key(rows[j], ws, by_cat);
            let i2 = if i < p { i } else { i + 1 };
            assert(v[i2] == acc[i]);
        } else {
            assert(agg_key(v[p]) == row_key(rows[j], ws, by_cat));
        }
    }
}

proof fn lemma_open_grounded(rows: Seq<Row>, n: nat, ws: Option<WindowSpec>, by_cat: bool, acc: Seq<AggregateRow>, p: int, cand: AggregateRow)
    requires
        n < rows.len(),
        grounded(rows, n, ws, by_cat, acc),
        0 <= p <= acc.len(),
        agg_key(cand) == row_key(rows[n as int], ws, by_cat),
    ensures
        grounded(rows, n + 1, ws, by_cat, acc.insert(p, cand)),
{
    reveal(grounded);
    let v = acc.insert(p, cand);
    assert forall|i: int| 0 <= i < v.len() implies exists|j: int|
        0 <= j < n + 1 && #[trigger] row_key(rows[j], ws, by_cat) == #[trigger] agg_key(v[i]) by {
        if i == p {
            assert(row_key(rows[n as int], ws, by_cat) == agg_key(v[i]));
        } else {
            let i0 = if i < p { i } else { i - 1 };
            assert(v[i] == acc[i0]);
            let j = choose|j: int| 0 <= j < n && #[trigger] row_key(rows[j], ws, by_cat) == #[trigger] agg_key(acc[i0]);
        }
    }
}

proof fn lemma_open_totals(rows: Seq<Row>, n: nat, ws: Option<WindowSpec>, by_cat: bool, acc: Seq<AggregateRow>, p: int, cand: AggregateRow)
    requires
        n < rows.len(),
        covers(rows, n, ws, by_cat, acc),
        totals_ok(rows, n, ws, by_cat, acc),
        0 <= p <= acc.len(),
        forall|i: int| 0 <= i < acc.len() ==> agg_key(#[trigger] acc[i]) != agg_key(cand),
        agg_key(cand) == row_key(rows[n as int], ws, by_cat),
        cand.total == rows[n as int].measure,
    ensures
        totals_ok(rows, n + 1, ws, by_cat, acc.insert(p, cand)),
{
    reveal(totals_ok);
    reveal(covers);
    let k = agg_key(cand);
    let v = acc.insert(p, cand);
    assert forall|j: int| 0 <= j < n implies #[trigger] row_key(rows[j], ws, by_cat) != k by {
        let i = choose|i: int| 0 <= i < acc.len() && #[trigger] agg_key(acc[i]) == #[trigger] row_key(rows[j], ws, by_cat);
        assert(agg_key(acc[i]) != k);
    }
    lemma_group_total_absent(rows, n, ws, by_cat, k);
    assert forall|i: int| 0 <= i < v.len() implies #[trigger] v[i].total == group_total(rows, n + 1, ws, by_cat, agg_key(v[i])) by {
        lemma_group_total_step(rows, n, ws, by_cat, agg_key(v[i]));
        if i != p {
            let i0 = if i < p { i } else { i - 1 };
            assert(v[i] == acc[i0]);
            assert(acc[i0].total == group_total(rows, n, ws, by_cat, agg_key(acc[i0])));
        }
    }
}

proof fn lemma_entry_total(rows: Seq<Row>, n: nat, ws: Option<WindowSpec>, by_cat: bool, v: Seq<AggregateRow>, i: int)
    requires
        aggregates(rows, n, ws, by_cat, v),
        0 <= i < v.len(),
    ensures
        v[i].total == group_total(rows, n, ws, by_cat, agg_key(v[i])),
{
    reveal(totals_ok);
}

proof fn lemma_totals_fit(rows: Seq<Row>, ws: Option<WindowSpec>, by_cat: bool, v: Seq<AggregateRow>)
    requires
        aggregates(rows, rows.len(), ws, by_cat, v),
    ensures
        !some_total_overflows(rows, ws, by_cat),
{
    reveal(totals_ok);
    reveal(covers);
    if some_total_overflows(rows, ws, by_cat) {
        let j = choose|j: int| 0 <= j < rows.len() && group_total(rows, rows.len(), ws, by_cat, #[trigger] row_key(rows[j], ws, by_cat)) > u64::MAX;
        let i = choose|i: int| 0 <= i < v.len() && #[trigger] agg_key(v[i]) == #[trigger] row_key(rows[j], ws, by_cat);
        assert(v[i].total == group_total(rows, rows.len(), ws, by_cat, agg_key(v[i])));
    }
}

/// Partition completeness: every input row belongs to an output group
/// (`covers`), to one only (no two output entries share a group), and every
/// output group has at least one input row (`grounded`).
pub proof fn lemma_partition_complete(rows: Seq<Row>, ws: Option<WindowSpec>, by_cat: bool, v: Seq<AggregateRow>)
    requires
        aggregates(rows, rows.len(), ws, by_cat, v),
    ensures
        covers(rows, rows.len(), ws, by_cat, v),
        grounded(rows, rows.len(), ws, by_cat, v),
        forall|a: int, b: int|
            0 <= a < v.len() && 0 <= b < v.len() && #[trigger] agg_key(v[a]) == #[trigger] agg_key(v[b]) ==> a == b,
{
    reveal(strictly_sorted);
    assert forall|a: int, b: int|
        0 <= a < v.len() && 0 <= b < v.len() && #[trigger] agg_key(v[a]) == #[trigger] agg_key(v[b]) implies a == b by {
        lemma_key_cmp_facts(agg_key(v[a]), agg_key(v[b]));
        if a < b {
            assert(key_cmp(agg_key(v[a]), agg_key(v[b])) == -1);
        } else if b < a {
            assert(key_cmp(agg_key(v[b]), agg_key(v[a])) == -1);
        }
    }
}

/// Sum correctness: each output total is the sum of the measures of exactly
/// the rows whose group it is.
pub proof fn lemma_sum_correct(rows: Seq<Row>, ws: Option<WindowSpec>, by_cat: bool, v: Seq<AggregateRow>)
    requires
        aggregates(rows, rows.len(), ws, by_cat, v),
    ensures
        forall|i: int|
            0 <= i < v.len() ==> #[trigger] v[i].total == group_total(rows, rows.len(), ws, by_cat, agg_key(v[i])),
{
    reveal(totals_ok);
}

pub open spec fn has_key(v: Seq<AggregateRow>, k: (Option<Window>, Option<Seq<u8>>)) -> bool {
    exists|m: int| 0 <= m < v.len() && #[trigger] agg_key(v[m]) == k
}

proof fn lemma_distinct_keys(v: Seq<AggregateRow>, x: int, y: int)
    requires
        strictly_sorted(v),
        0 <= x < v.len(),
        0 <= y < v.len(),
        x != y,
    ensures
        agg_key(v[x]) != agg_key(v[y]),
{
    reveal(strictly_sorted);
    lemma_key_cmp_facts(agg_key(v[x]), agg_key(v[y]));
    if x < y {
        assert(key_cmp(agg_key(v[x]), agg_key(v[y])) == -1);
    } else {
        assert(key_cmp(agg_key(v[y]), agg_key(v[x])) == -1);
    }
}

proof fn lemma_same_prefix(a: Seq<AggregateRow>, b: Seq<AggregateRow>, i: int)
    requires
        strictly_sorted(a),
        strictly_sorted(b),
        forall|x: int| 0 <= x < a.len() ==> has_key(b, #[trigger] agg_key(a[x])),
        forall|y: int| 0 <= y < b.len() ==> has_key(a, #[trigger] agg_key(b[y])),
        0 <= i < a.len(),
        i < b.len(),
    ensures
        forall|k: int| 0 <= k <= i ==> agg_key(#[trigger] a[k]) == agg_key(b[k]),
    decreases i,
{
    if i > 0 {
        lemma_same_prefix(a, b, i - 1);
    }
    let ka = agg_key(a[i]);
    let kb = agg_key(b[i]);
    assert(has_key(b, ka));
    let m = choose|m: int| 0 <= m < b.len() && #[trigger] agg_key(b[m]) == ka;
    assert(has_key(a, kb));
    let q = choose|q: int| 0 <= q < a.len() && #[trigger] agg_key(a[q]) == kb;
    if m < i {
        assert(agg_key(a[m]) == agg_key(b[m]));
        lemma_distinct_keys(a, m, i);
    } else if m > i {
        reveal(strictly_sorted);
        assert(key_cmp(kb, ka) == -1);
        if q < i {
            assert(agg_key(a[q]) == agg_key(b[q]));
            lemma_distinct_keys(b, q, i);
        } else if q > i {
            assert(key_cmp(ka, kb) == -1);
            lemma_key_cmp_facts(ka, kb);
        } else {
            lemma_key_cmp_facts(ka, kb);
        }
    }
}

proof fn lemma_keys_shared(rows: Seq<Row>, ws: Option<WindowSpec>, by_cat: bool, a: Seq<AggregateRow>, b: Seq<AggregateRow>)
    requires
        grounded(rows, rows.len(), ws, by_cat, a),
        covers(rows, rows.len(), ws, by_cat, b),
    ensures
        forall|x: int| 0 <= x < a.len() ==> has_key(b, #[trigger] agg_key(a[x])),
{
    reveal(covers);
    reveal(grounded);
    assert forall|x: int| 0 <= x < a.len() implies has_key(b, #[trigger] agg_key(a[x])) by {
        let j = choose|j: int| 0 <= j < rows.len() && #[trigger] row_key(rows[j], ws, by_cat) == #[trigger] agg_key(a[x]);
        let m = choose|m: int| 0 <= m < b.len() && #[trigger] agg_key(b[m]) == #[trigger] row_key(rows[j], ws, by_cat);
        assert(0 <= m < b.len() && agg_key(b[m]) == agg_key(a[x]));
    }
}

/// Ordering determinism: any two outputs that aggregate the same rows under
/// the same configuration list the same groups, with the same totals, in the
/// same order.
pub proof fn lemma_output_determined(
    rows: Seq<Row>,
    ws: Option<WindowSpec>,
    by_cat: bool,
    a: Seq<AggregateRow>,
    b: Seq<AggregateRow>,
)
    requires
        aggregates(rows, rows.len(), ws, by_cat, a),
        aggregates(rows, rows.len(), ws, by_cat, b),
    ensures
        a.len() == b.len(),
        forall|i: int| 0 <= i < a.len() ==> agg_key(#[trigger] a[i]) == agg_key(b[i]) && a[i].total == b[i].total,
{
    lemma_keys_shared(rows, ws, by_cat, a, b);
    lemma_keys_shared(rows, ws, by_cat, b, a);
    if a.len() > b.len() {
        let ka = agg_key(a[b.len() as int]);
        assert(has_key(b, ka));
        let m = choose|m: int| 0 <= m < b.len() && #[trigger] agg_key(b[m]) == ka;
        lemma_same_prefix(a, b, m);
        lemma_distinct_keys(a, m, b.len() as int);
    }
    if b.len() > a.len() {
        let kb = agg_key(b[a.len() as int]);
        assert(has_key(a, kb));
        let m = choose|m: int| 0 <= m < a.len() && #[trigger] agg_key(a[m]) == kb;
        lemma_same_prefix(a, b, m);
        lemma_distinct_keys(b, m, a.len() as int);
    }
    if a.len() > 0 {
        lemma_same_prefix(a, b, a.len() - 1);
    }
    reveal(totals_ok);
    assert forall|i: int| 0 <= i < a.len() implies agg_key(#[trigger] a[i]) == agg_key(b[i]) && a[i].total == b[i].total by {
        assert(agg_key(a[i]) == agg_key(b[i]));
        assert(a[i].total == group_total(rows, rows.len(), ws, by_cat, agg_key(a[i])));
        assert(b[i].total == group_total(rows, rows.len(), ws, by_cat, agg_key(b[i])));
    }
}

/// The label a group gets from its first row.
pub open spec fn label_for(r: Row, ws: Option<WindowSpec>) -> Option<CivilDateTime> {
    match ws {
        None => None,
        Some(w) => if w.truncate_to_window_start {
            Some(window_spec_of(r.timestamp, w).start)
        } else {
            Some(r.timestamp)
        },
    }
}

proof fn lemma_merge_labels(rows: Seq<Row>, n: nat, ws: Option<WindowSpec>, by_cat: bool, acc: Seq<AggregateRow>, p: int, updated: AggregateRow)
    requires
        labels_ok(rows, n, ws, by_cat, acc),
        0 <= p < acc.len(),
        agg_key(updated) == agg_key(acc[p]),
        updated.label == acc[p].label,
    ensures
        labels_ok(rows, n + 1, ws, by_cat, acc.update(p, updated)),
{
    reveal(labels_ok);
    let v = acc.update(p, updated);
    assert forall|i: int| 0 <= i < v.len() implies label_of(#[trigger] v[i], rows, n + 1, ws, by_cat) by {
        assert(label_of(acc[i], rows, n, ws, by_cat));
        assert(agg_key(v[i]) == agg_key(acc[i]));
        assert(v[i].label == acc[i].label);
        assert(v[i].window == acc[i].window);
        if ws is Some && !ws->0.truncate_to_window_start {
            let j = choose|j: int| #[trigger] first_of_group(rows, n, ws, by_cat, agg_key(acc[i]), j) && acc[i].label == Some(rows[j].timestamp);
            assert(first_of_group(rows, n + 1, ws, by_cat, agg_key(v[i]), j));
        }
    }
}

proof fn lemma_no_earlier_row(rows: Seq<Row>, n: nat, ws: Option<WindowSpec>, by_cat: bool, acc: Seq<AggregateRow>, k: (Option<Window>, Option<Seq<u8>>))
    requires
        covers(rows, n, ws, by_cat, acc),
        forall|i: int| 0 <= i < acc.len() ==> agg_key(#[trigger] acc[i]) != k,
    ensures
        forall|j: int| 0 <= j < n ==> #[trigger] row_key(rows[j], ws, by_cat) != k,
{
    reveal(covers);
    assert forall|j: int| 0 <= j < n implies #[trigger] row_key(rows[j], ws, by_cat) != k by {
        let i = choose|i: int| 0 <= i < acc.len() && #[trigger] agg_key(acc[i]) == #[trigger] row_key(rows[j], ws, by_cat);
        assert(agg_key(acc[i]) != k);
    }
}

proof fn lemma_open_labels(rows: Seq<Row>, n: nat, ws: Option<WindowSpec>, by_cat: bool, acc: Seq<AggregateRow>, p: int, cand: AggregateRow)
    requires
        n < rows.len(),
        labels_ok(rows, n, ws, by_cat, acc),
        0 <= p <= acc.len(),
        agg_key(cand) == row_key(rows[n as int], ws, by_cat),
        cand.label == label_for(rows[n as int], ws),
        forall|j: int| 0 <= j < n ==> #[trigger] row_key(rows[j], ws, by_cat) != agg_key(cand),
    ensures
        labels_ok(rows, n + 1, ws, by_cat, acc.insert(p, cand)),
{
    reveal(labels_ok);
    let v = acc.insert(p, cand);
    assert forall|i: int| 0 <= i < v.len() implies label_of(#[trigger] v[i], rows, n + 1, ws, by_cat) by {
        if i == p {
            assert(v[i] == cand);
            if ws is Some && !ws->0.truncate_to_window_start {
                assert(first_of_group(rows, n + 1, ws, by_cat, agg_key(v[i]), n as int));
            }
        } else {
            let i0 = if i < p { i } else { i - 1 };
            assert(v[i] == acc[i0]);
            assert(label_of(acc[i0], rows, n, ws, by_cat));
            if ws is Some && !ws->0.truncate_to_window_start {
                let j = choose|j: int| #[trigger] first_of_group(rows, n, ws, by_cat, agg_key(acc[i0]), j) && acc[i0].label == Some(rows[j].timestamp);
                assert(first_of_group(rows, n + 1, ws, by_cat, agg_key(v[i]), j));
            }
        }
    }
}

proof fn lemma_sum_update(v: Seq<AggregateRow>, p: int, x: AggregateRow)
    requires
        0 <= p < v.len(),
    ensures
        sum_of_totals(v.update(p, x)) + v[p].total == sum_of_totals(v) + x.total,
    decreases v.len(),
{
    let w = v.update(p, x);
    if p == v.len() - 1 {
        assert(w.drop_last() =~= v.drop_last());
    } else {
        assert(w.drop_last() =~= v.drop_last().update(p, x));
        lemma_sum_update(v.drop_last(), p, x);
    }
}

proof fn lemma_sum_insert(v: Seq<AggregateRow>, p: int, x: AggregateRow)
    requires
        0 <= p <= v.len(),
    ensures
        sum_of_totals(v.insert(p, x)) == sum_of_totals(v) + x.total,
    decreases v.len(),
{
    let w = v.insert(p, x);
    if p == v.len() {
        assert(w.drop_last() =~= v);
    } else {
        assert(w.drop_last() =~= v.drop_last().insert(p, x));
        assert(w.last() == v.last());
        lemma_sum_insert(v.drop_last(), p, x);
    }
}

/// The two configurations agree: the totals of any aggregation add up to the
/// grand total of all measures.
pub proof fn lemma_totals_add_up(rows: Seq<Row>, ws: Option<WindowSpec>, by_cat: bool, v: Seq<AggregateRow>)
    requires
        aggregates(rows, rows.len(), ws, by_cat, v),
    ensures
        sum_of_totals(v) == sum_of_measures(rows, rows.len()),
{
}

} // verus!
