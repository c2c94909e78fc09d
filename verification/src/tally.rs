//! Keyed running totals and their ordering, used by the day report.
use crate::text::{seq_lt, str_eq, str_lt, lemma_seq_lt_asymmetric, lemma_seq_lt_irreflexive, lemma_seq_lt_total,
    lemma_seq_lt_transitive};
use vstd::prelude::*;

verus! {

/// The total of one key: the category it was first seen with, its duration and
/// its number of accesses.
pub struct Tally {
    pub category: Seq<char>,
    pub duration: int,
    pub accesses: int,
}

/// Adds `ms` and `acc` to the total of `key`; a new key takes `category`.
pub open spec fn tally_add(
    m: Map<Seq<char>, Tally>,
    key: Seq<char>,
    category: Seq<char>,
    ms: int,
    acc: int,
) -> Map<Seq<char>, Tally> {
    if m.contains_key(key) {
        m.insert(
            key,
            Tally {
                category: m[key].category,
                duration: m[key].duration + ms,
                accesses: m[key].accesses + acc,
            },
        )
    } else {
        m.insert(key, Tally { category, duration: ms, accesses: acc })
    }
}

/// A row of a keyed total.
pub struct Row {
    pub key: String,
    pub category: String,
    pub duration: u64,
    pub accesses: u64,
}

/// The mathematical value of a [`Row`].
pub struct RowView {
    pub key: Seq<char>,
    pub category: Seq<char>,
    pub duration: int,
    pub accesses: int,
}

impl View for Row {
    type V = RowView;

    open spec fn view(&self) -> RowView {
        RowView {
            key: self.key@,
            category: self.category@,
            duration: self.duration as int,
            accesses: self.accesses as int,
        }
    }
}

/// The views of a sequence of rows.
pub open spec fn rows_view(rows: Seq<Row>) -> Seq<RowView> {
    rows.map_values(|r: Row| r@)
}

/// The tally that a row states.
pub open spec fn row_tally(r: RowView) -> Tally {
    Tally { category: r.category, duration: r.duration, accesses: r.accesses }
}

/// No key occurs twice.
pub open spec fn distinct_keys(rows: Seq<RowView>) -> bool {
    forall|i: int, j: int| 0 <= i < j < rows.len() ==> rows[i].key != rows[j].key
}

/// The rows list exactly the keys of `m`, each once, with its total.
pub open spec fn represents(rows: Seq<RowView>, m: Map<Seq<char>, Tally>) -> bool {
    &&& forall|i: int| 0 <= i < rows.len() ==> #[trigger] m.contains_key(rows[i].key)
        && m[rows[i].key] == row_tally(rows[i])
    &&& forall|k: Seq<char>| m.contains_key(k) ==> exists|i: int| 0 <= i < rows.len() && #[trigger] rows[i].key == k
    &&& distinct_keys(rows)
}

/// The order of report rows: by longer duration first and then by key when
/// `by_duration`, otherwise by key alone.
pub open spec fn row_before(a: RowView, b: RowView, by_duration: bool) -> bool {
    if by_duration {
        a.duration > b.duration || (a.duration == b.duration && seq_lt(a.key, b.key))
    } else {
        seq_lt(a.key, b.key)
    }
}

/// Each row comes strictly before every later one.
pub open spec fn sorted_rows(rows: Seq<RowView>, by_duration: bool) -> bool {
    forall|i: int, j: int| 0 <= i < j < rows.len() ==> row_before(rows[i], rows[j], by_duration)
}

/// The position of `key` in `rows`, if any.
pub fn find_row(rows: &Vec<Row>, key: &str) -> (r: Option<usize>)
    ensures
        match r {
            Some(i) => i < rows.len() && rows@[i as int]@.key == key@,
            None => forall|i: int| 0 <= i < rows.len() ==> (#[trigger] rows@[i])@.key != key@,
        },
{
    let mut i: usize = 0;
    while i < rows.len()
        invariant
            i <= rows.len(),
            forall|j: int| 0 <= j < i ==> (#[trigger] rows@[j])@.key != key@,
        decreases rows.len() - i,
    {
        if str_eq(rows[i].key.as_str(), key) {
            return Some(i);
        }
        i = i + 1;
    }
    None
}

/// Adding to a row that represents a key, or appending a row for a new key,
/// represents the tally with the addition.
pub proof fn lemma_tally_step(
    old_rows: Seq<RowView>,
    new_rows: Seq<RowView>,
    m: Map<Seq<char>, Tally>,
    key: Seq<char>,
    category: Seq<char>,
    ms: int,
    acc: int,
    pos: Option<int>,
)
    requires
        represents(old_rows, m),
        match pos {
            Some(i) => 0 <= i < old_rows.len() && old_rows[i].key == key && new_rows == old_rows.update(
                i,
                RowView {
                    key: key,
                    category: old_rows[i].category,
                    duration: old_rows[i].duration + ms,
                    accesses: old_rows[i].accesses + acc,
                },
            ),
            None => (forall|i: int| 0 <= i < old_rows.len() ==> old_rows[i].key != key)
                && new_rows == old_rows.push(
                RowView { key: key, category: category, duration: ms, accesses: acc },
            ),
        },
    ensures
        represents(new_rows, tally_add(m, key, category, ms, acc)),
{
    let m2 = tally_add(m, key, category, ms, acc);
    match pos {
        Some(p) => {
            assert(m.contains_key(old_rows[p].key));
            assert forall|i: int| 0 <= i < new_rows.len() implies #[trigger] m2.contains_key(
                new_rows[i].key,
            ) && m2[new_rows[i].key] == row_tally(new_rows[i]) by {
                if i != p {
                    assert(m.contains_key(old_rows[i].key));
                }
            }
            assert forall|k: Seq<char>| m2.contains_key(k) implies exists|i: int|
                0 <= i < new_rows.len() && #[trigger] new_rows[i].key == k by {
                if k != key {
                    assert(m.contains_key(k));
                    let i = choose|i: int| 0 <= i < old_rows.len() && #[trigger] old_rows[i].key == k;
                    assert(new_rows[i].key == k);
                } else {
                    assert(new_rows[p].key == k);
                }
            }
        },
        None => {
            assert(!m.contains_key(key)) by {
                if m.contains_key(key) {
                    let i = choose|i: int| 0 <= i < old_rows.len() && #[trigger] old_rows[i].key == key;
                }
            }
            assert forall|i: int| 0 <= i < new_rows.len() implies #[trigger] m2.contains_key(
                new_rows[i].key,
            ) && m2[new_rows[i].key] == row_tally(new_rows[i]) by {
                if i < old_rows.len() {
                    assert(m.contains_key(old_rows[i].key));
                }
            }
            assert forall|k: Seq<char>| m2.contains_key(k) implies exists|i: int|
                0 <= i < new_rows.len() && #[trigger] new_rows[i].key == k by {
                if k != key {
                    assert(m.contains_key(k));
                    let i = choose|i: int| 0 <= i < old_rows.len() && #[trigger] old_rows[i].key == k;
                    assert(new_rows[i].key == k);
                } else {
                    assert(new_rows[old_rows.len() as int].key == k);
                }
            }
        },
    }
}

/// Adds `ms` and `acc` to the row of `key`, or appends a row for it with
/// `category`.
pub fn add_to_rows(rows: &mut Vec<Row>, key: &str, category: &str, ms: u64, acc: u64) -> (pos: Option<usize>)
    requires
        forall|i: int| 0 <= i < old(rows).len() ==> (#[trigger] old(rows)@[i]).duration + ms <= u64::MAX
            && old(rows)@[i].accesses + acc <= u64::MAX,
    ensures
        match pos {
            Some(i) => 0 <= i < old(rows).len() && rows_view(old(rows)@)[i as int].key == key@
                && rows_view(final(rows)@) == rows_view(old(rows)@).update(
                i as int,
                RowView {
                    key: key@,
                    category: rows_view(old(rows)@)[i as int].category,
                    duration: rows_view(old(rows)@)[i as int].duration + ms,
                    accesses: rows_view(old(rows)@)[i as int].accesses + acc,
                },
            ),
            None => (forall|i: int| 0 <= i < old(rows).len() ==> rows_view(old(rows)@)[i].key != key@)
                && rows_view(final(rows)@) == rows_view(old(rows)@).push(
                RowView { key: key@, category: category@, duration: ms as int, accesses: acc as int },
            ),
        },
{
    match find_row(rows, key) {
        Some(i) => {
            let old_row = rows.remove(i);
            let row = Row {
                key: old_row.key,
                category: old_row.category,
                duration: old_row.duration + ms,
                accesses: old_row.accesses + acc,
            };
            rows.insert(i, row);
            proof {
                let ov = rows_view(old(rows)@);
                let nv = RowView {
                    key: key@,
                    category: ov[i as int].category,
                    duration: ov[i as int].duration + ms,
                    accesses: ov[i as int].accesses + acc,
                };
                assert(rows_view(final(rows)@) =~= ov.update(i as int, nv));
            }
            Some(i)
        },
        None => {
            let row = Row {
                key: crate::text::owned(key),
                category: crate::text::owned(category),
                duration: ms,
                accesses: acc,
            };
            rows.push(row);
            proof {
                let ov = rows_view(old(rows)@);
                assert(rows_view(final(rows)@) =~= ov.push(
                    RowView { key: key@, category: category@, duration: ms as int, accesses: acc as int },
                ));
                assert forall|i: int| 0 <= i < old(rows).len() implies rows_view(old(rows)@)[i].key != key@ by {
                    assert(old(rows)@[i]@.key != key@);
                }
            }
            None
        },
    }
}

/// Whether `a` comes before `b`; see [`row_before`].
pub fn row_before_exec(a: &Row, b: &Row, by_duration: bool) -> (r: bool)
    ensures
        r == row_before(a@, b@, by_duration),
{
    if by_duration {
        if a.duration != b.duration {
            return a.duration > b.duration;
        }
    }
    str_lt(a.key.as_str(), b.key.as_str())
}

proof fn lemma_before_irreflexive(a: RowView, by: bool)
    ensures
        !row_before(a, a, by),
{
    lemma_seq_lt_irreflexive(a.key);
}

proof fn lemma_before_transitive(a: RowView, b: RowView, c: RowView, by: bool)
    requires
        row_before(a, b, by),
        row_before(b, c, by),
    ensures
        row_before(a, c, by),
{
    if by {
        if a.duration == b.duration && b.duration == c.duration {
            lemma_seq_lt_transitive(a.key, b.key, c.key);
        }
    } else {
        lemma_seq_lt_transitive(a.key, b.key, c.key);
    }
}

proof fn lemma_before_total(a: RowView, b: RowView, by: bool)
    requires
        a.key != b.key,
    ensures
        row_before(a, b, by) || row_before(b, a, by),
{
    lemma_seq_lt_total(a.key, b.key);
}

/// The rows in the order of [`row_before`]: the same rows, sorted.
pub fn sort_rows(rows: Vec<Row>, by_duration: bool) -> (out: Vec<Row>)
    requires
        distinct_keys(rows_view(rows@)),
    ensures
        sorted_rows(rows_view(out@), by_duration),
        out.len() == rows.len(),
        forall|x: RowView| rows_view(out@).contains(x) <==> rows_view(rows@).contains(x),
{
    let mut rest = rows;
    let mut out: Vec<Row> = Vec::new();
    let ghost all = rows_view(rows@);
    while rest.len() > 0
        invariant
            distinct_keys(rows_view(rest@)),
            sorted_rows(rows_view(out@), by_duration),
            forall|i: int, j: int| 0 <= i < out.len() && 0 <= j < rest.len() ==> row_before(
                rows_view(out@)[i],
                rows_view(rest@)[j],
                by_duration,
            ),
            out.len() + rest.len() == all.len(),
            forall|x: RowView| (rows_view(out@).contains(x) || rows_view(rest@).contains(x)) <==> all.contains(x),
        decreases rest.len(),
    {
        let ghost rv = rows_view(rest@);
        let mut best: usize = 0;
        let mut k: usize = 1;
        proof {
            lemma_before_irreflexive(rv[0], by_duration);
        }
        while k < rest.len()
            invariant
                rv == rows_view(rest@),
                best < rest.len(),
                1 <= k <= rest.len(),
                forall|m: int| 0 <= m < k ==> !row_before(rv[m], rv[best as int], by_duration),
            decreases rest.len() - k,
        {
            if row_before_exec(&rest[k], &rest[best], by_duration) {
                proof {
                    assert forall|m: int| 0 <= m < k + 1 implies !row_before(rv[m], rv[k as int], by_duration) by {
                        if m == k {
                            lemma_before_irreflexive(rv[m], by_duration);
                        } else if row_before(rv[m], rv[k as int], by_duration) {
                            lemma_before_transitive(rv[m], rv[k as int], rv[best as int], by_duration);
                        }
                    }
                }
                best = k;
            }
            k = k + 1;
        }
        let ghost ov = rows_view(out@);
        let x = rest.remove(best);
        proof {
            let xv = rv[best as int];
            assert(rows_view(rest@) =~= rv.remove(best as int));
            // the chosen row precedes every other remaining row
            assert forall|j: int| 0 <= j < rest.len() implies row_before(xv, rows_view(rest@)[j], by_duration) by {
                let jj = if j < best { j } else { j + 1 };
                assert(rows_view(rest@)[j] == rv[jj]);
                assert(rv[jj].key != xv.key);
                lemma_before_total(xv, rv[jj], by_duration);
            }
        }
        out.push(x);
        proof {
            let xv = rv[best as int];
            assert(rows_view(out@) =~= ov.push(xv));
            assert forall|x2: RowView| (rows_view(out@).contains(x2) || rows_view(rest@).contains(x2)) <==> all.contains(x2) by {
                if rows_view(out@).contains(x2) {
                    let i = choose|i: int| 0 <= i < rows_view(out@).len() && rows_view(out@)[i] == x2;
                    if i < ov.len() {
                        assert(ov[i] == x2);
                        assert(ov.contains(x2));
                    } else {
                        assert(rv[best as int] == x2);
                        assert(rv.contains(x2));
                    }
                }
                if rows_view(rest@).contains(x2) {
                    let i = choose|i: int| 0 <= i < rows_view(rest@).len() && rows_view(rest@)[i] == x2;
                    let ii = if i < best { i } else { i + 1 };
                    assert(rv[ii] == x2);
                    assert(rv.contains(x2));
                }
                if rv.contains(x2) {
                    let i = choose|i: int| 0 <= i < rv.len() && rv[i] == x2;
                    if i == best {
                        assert(rows_view(out@)[ov.len() as int] == x2);
                    } else if i < best {
                        assert(rows_view(rest@)[i] == x2);
                    } else {
                        assert(rows_view(rest@)[i - 1] == x2);
                    }
                }
                if ov.contains(x2) {
                    let i = choose|i: int| 0 <= i < ov.len() && ov[i] == x2;
                    assert(rows_view(out@)[i] == x2);
                }
            }
            assert forall|i: int, j: int| 0 <= i < j < rows_view(out@).len() implies row_before(
                rows_view(out@)[i],
                rows_view(out@)[j],
                by_duration,
            ) by {
                if j == ov.len() {
                    assert(rv[best as int] == rows_view(out@)[j]);
                }
            }
            assert forall|i: int, j: int| 0 <= i < out.len() && 0 <= j < rest.len() implies row_before(
                rows_view(out@)[i],
                rows_view(rest@)[j],
                by_duration,
            ) by {
                if i < ov.len() {
                    let jj = if j < best { j } else { j + 1 };
                    assert(rows_view(rest@)[j] == rv[jj]);
                }
            }
            assert forall|i: int, j: int| 0 <= i < j < rows_view(rest@).len() implies rows_view(rest@)[i].key
                != rows_view(rest@)[j].key by {
                let ii = if i < best { i } else { i + 1 };
                let jj = if j < best { j } else { j + 1 };
                assert(rows_view(rest@)[i] == rv[ii]);
                assert(rows_view(rest@)[j] == rv[jj]);
            }
        }
    }
    proof {
        assert forall|x: RowView| rows_view(out@).contains(x) <==> all.contains(x) by {
            if rows_view(rest@).contains(x) {
                let i = choose|i: int| 0 <= i < rows_view(rest@).len() && rows_view(rest@)[i] == x;
            }
        }
    }
    out
}

/// A sorted permutation of rows that represent a tally represents it too.
pub proof fn lemma_sorted_represents(
    rows: Seq<RowView>,
    out: Seq<RowView>,
    m: Map<Seq<char>, Tally>,
    by: bool,
)
    requires
        represents(rows, m),
        sorted_rows(out, by),
        forall|x: RowView| out.contains(x) <==> rows.contains(x),
    ensures
        represents(out, m),
{
    assert forall|i: int| 0 <= i < out.len() implies #[trigger] m.contains_key(out[i].key) && m[out[i].key]
        == row_tally(out[i]) by {
        assert(out.contains(out[i]));
        let j = choose|j: int| 0 <= j < rows.len() && rows[j] == out[i];
        assert(m.contains_key(rows[j].key));
    }
    assert forall|k: Seq<char>| m.contains_key(k) implies exists|i: int| 0 <= i < out.len() && #[trigger] out[i].key == k by {
        let j = choose|j: int| 0 <= j < rows.len() && #[trigger] rows[j].key == k;
        assert(rows.contains(rows[j]));
        let i = choose|i: int| 0 <= i < out.len() && out[i] == rows[j];
        assert(out[i].key == k);
    }
    assert forall|i: int, j: int| 0 <= i < j < out.len() implies out[i].key != out[j].key by {
        if out[i].key == out[j].key {
            lemma_same_key_same_row(rows, out, m, i, j);
            assert(row_before(out[i], out[j], by));
            lemma_before_irreflexive(out[i], by);
        }
    }
}

proof fn lemma_same_key_same_row(rows: Seq<RowView>, out: Seq<RowView>, m: Map<Seq<char>, Tally>, i: int, j: int)
    requires
        represents(rows, m),
        forall|x: RowView| out.contains(x) <==> rows.contains(x),
        0 <= i < out.len(),
        0 <= j < out.len(),
        out[i].key == out[j].key,
    ensures
        out[i] == out[j],
{
    assert(out.contains(out[i]));
    assert(out.contains(out[j]));
    assert(rows.contains(out[i]));
    assert(rows.contains(out[j]));
    let a = choose|a: int| 0 <= a < rows.len() && rows[a] == out[i];
    let b = choose|b: int| 0 <= b < rows.len() && rows[b] == out[j];
    assert(m.contains_key(rows[a].key) && m[rows[a].key] == row_tally(rows[a]));
    assert(m.contains_key(rows[b].key) && m[rows[b].key] == row_tally(rows[b]));
}


/// The sum of the durations of rows.
pub open spec fn rows_total(rows: Seq<RowView>) -> int
    decreases rows.len(),
{
    if rows.len() == 0 {
        0
    } else {
        rows_total(rows.drop_last()) + rows.last().duration
    }
}

proof fn lemma_rows_total_update(rows: Seq<RowView>, i: int, x: RowView)
    requires
        0 <= i < rows.len(),
    ensures
        rows_total(rows.update(i, x)) == rows_total(rows) - rows[i].duration + x.duration,
    decreases rows.len(),
{
    if i < rows.len() - 1 {
        lemma_rows_total_update(rows.drop_last(), i, x);
        assert(rows.update(i, x).drop_last() =~= rows.drop_last().update(i, x));
    } else {
        assert(rows.update(i, x).drop_last() =~= rows.drop_last());
    }
}

proof fn lemma_rows_total_remove(rows: Seq<RowView>, i: int)
    requires
        0 <= i < rows.len(),
    ensures
        rows_total(rows.remove(i)) == rows_total(rows) - rows[i].duration,
    decreases rows.len(),
{
    if i < rows.len() - 1 {
        lemma_rows_total_remove(rows.drop_last(), i);
        assert(rows.remove(i).drop_last() =~= rows.drop_last().remove(i));
        assert(rows.remove(i).last() == rows.last());
    } else {
        assert(rows.remove(i) =~= rows.drop_last());
    }
}

/// Rows that represent a tally with `ms` added to `key` total `ms` more than
/// some rows that represent the tally before the addition.
pub proof fn lemma_tally_add_total(
    rows: Seq<RowView>,
    m: Map<Seq<char>, Tally>,
    key: Seq<char>,
    category: Seq<char>,
    ms: int,
    acc: int,
) -> (before: Seq<RowView>)
    requires
        represents(rows, tally_add(m, key, category, ms, acc)),
    ensures
        represents(before, m),
        rows_total(rows) == rows_total(before) + ms,
{
    let m2 = tally_add(m, key, category, ms, acc);
    assert(m2.contains_key(key));
    let i = choose|i: int| 0 <= i < rows.len() && #[trigger] rows[i].key == key;
    if m.contains_key(key) {
        let x = RowView { duration: rows[i].duration - ms, accesses: rows[i].accesses - acc, ..rows[i] };
        let before = rows.update(i, x);
        lemma_rows_total_update(rows, i, x);
        assert forall|j: int| 0 <= j < before.len() implies #[trigger] m.contains_key(before[j].key)
            && m[before[j].key] == row_tally(before[j]) by {
            if j != i {
                assert(before[j] == rows[j]);
                assert(rows[j].key != key);
                assert(m2.contains_key(rows[j].key));
            }
        }
        assert forall|k: Seq<char>| m.contains_key(k) implies exists|j: int|
            0 <= j < before.len() && #[trigger] before[j].key == k by {
            assert(m2.contains_key(k));
            let j = choose|j: int| 0 <= j < rows.len() && #[trigger] rows[j].key == k;
            assert(before[j].key == k);
        }
        before
    } else {
        let before = rows.remove(i);
        lemma_rows_total_remove(rows, i);
        assert forall|j: int| 0 <= j < before.len() implies #[trigger] m.contains_key(before[j].key)
            && m[before[j].key] == row_tally(before[j]) by {
            let jj = if j < i { j } else { j + 1 };
            assert(before[j] == rows[jj]);
            assert(rows[jj].key != key);
            assert(m2.contains_key(rows[jj].key));
        }
        assert forall|k: Seq<char>| m.contains_key(k) implies exists|j: int|
            0 <= j < before.len() && #[trigger] before[j].key == k by {
            assert(m2.contains_key(k));
            let j = choose|j: int| 0 <= j < rows.len() && #[trigger] rows[j].key == k;
            assert(j != i);
            if j < i {
                assert(before[j] == rows[j]);
            } else {
                assert(before[j - 1] == rows[j]);
            }
        }
        assert forall|a: int, b: int| 0 <= a < b < before.len() implies before[a].key != before[b].key by {
            let aa = if a < i { a } else { a + 1 };
            let bb = if b < i { b } else { b + 1 };
            assert(before[a] == rows[aa] && before[b] == rows[bb]);
        }
        before
    }
}

/// Rows that represent the empty tally total nothing.
pub proof fn lemma_empty_total(rows: Seq<RowView>)
    requires
        represents(rows, Map::empty()),
    ensures
        rows_total(rows) == 0,
{
    if rows.len() > 0 {
        assert(Map::<Seq<char>, Tally>::empty().contains_key(rows[0].key));
    }
}


/// A row without its category: its key, duration and accesses.
pub open spec fn untagged(r: RowView) -> RowView {
    RowView { category: Seq::empty(), ..r }
}

/// The rows without their categories.
pub open spec fn untagged_rows(rows: Seq<RowView>) -> Seq<RowView> {
    rows.map_values(|r: RowView| untagged(r))
}

/// Two tallies have the same keys, and the same duration and accesses under
/// each key; only the categories may differ.
pub open spec fn same_totals(m1: Map<Seq<char>, Tally>, m2: Map<Seq<char>, Tally>) -> bool {
    &&& forall|k: Seq<char>| #[trigger] m1.contains_key(k) <==> m2.contains_key(k)
    &&& forall|k: Seq<char>| #[trigger] m1.contains_key(k) ==> m1[k].duration == m2[k].duration
        && m1[k].accesses == m2[k].accesses
}

proof fn lemma_before_asymmetric(a: RowView, b: RowView, by: bool)
    requires
        row_before(a, b, by),
    ensures
        !row_before(b, a, by),
{
    if seq_lt(a.key, b.key) {
        lemma_seq_lt_asymmetric(a.key, b.key);
    }
}

/// Rows in the report's order are fixed by the totals they list: two sorted
/// lists that represent tallies with the same keys, durations and accesses list
/// the same keys, durations and accesses in the same order.
pub proof fn lemma_sorted_rows_unique(
    r1: Seq<RowView>,
    r2: Seq<RowView>,
    m1: Map<Seq<char>, Tally>,
    m2: Map<Seq<char>, Tally>,
    by: bool,
)
    requires
        represents(r1, m1),
        represents(r2, m2),
        same_totals(m1, m2),
        sorted_rows(r1, by),
        sorted_rows(r2, by),
    ensures
        untagged_rows(r1) == untagged_rows(r2),
    decreases r1.len(),
{
    if r1.len() == 0 {
        if r2.len() > 0 {
            assert(m2.contains_key(r2[0].key));
            assert(m1.contains_key(r2[0].key));
            let i = choose|i: int| 0 <= i < r1.len() && #[trigger] r1[i].key == r2[0].key;
        }
        assert(untagged_rows(r1) =~= untagged_rows(r2));
    } else {
        if r2.len() == 0 {
            assert(m1.contains_key(r1[0].key));
            assert(m2.contains_key(r1[0].key));
            let i = choose|i: int| 0 <= i < r2.len() && #[trigger] r2[i].key == r1[0].key;
        }
        let a = r1[0];
        let b = r2[0];
        assert(m1.contains_key(a.key));
        assert(m2.contains_key(b.key));
        assert(m1.contains_key(b.key));
        assert(m2.contains_key(a.key));
        let j = choose|j: int| 0 <= j < r1.len() && #[trigger] r1[j].key == b.key;
        let l = choose|l: int| 0 <= l < r2.len() && #[trigger] r2[l].key == a.key;
        assert(m1[r1[j].key] == row_tally(r1[j]));
        assert(m2[r2[l].key] == row_tally(r2[l]));
        if a.key != b.key {
            assert(j != 0);
            assert(l != 0);
            assert(row_before(r1[0], r1[j], by));
            assert(row_before(r2[0], r2[l], by));
            lemma_before_asymmetric(a, b, by);
            assert(false);
        }
        let k = a.key;
        let t1 = r1.drop_first();
        let t2 = r2.drop_first();
        let n1 = m1.remove(k);
        let n2 = m2.remove(k);
        assert forall|i: int| 0 <= i < t1.len() implies #[trigger] n1.contains_key(t1[i].key) && n1[t1[i].key]
            == row_tally(t1[i]) by {
            assert(t1[i] == r1[i + 1]);
            assert(m1.contains_key(r1[i + 1].key));
        }
        assert forall|q: Seq<char>| n1.contains_key(q) implies exists|i: int| 0 <= i < t1.len() && #[trigger] t1[i].key == q by {
            let i = choose|i: int| 0 <= i < r1.len() && #[trigger] r1[i].key == q;
            assert(i != 0);
            assert(t1[i - 1] == r1[i]);
        }
        assert forall|i: int, x: int| 0 <= i < x < t1.len() implies t1[i].key != t1[x].key by {
            assert(t1[i] == r1[i + 1] && t1[x] == r1[x + 1]);
        }
        assert forall|i: int| 0 <= i < t2.len() implies #[trigger] n2.contains_key(t2[i].key) && n2[t2[i].key]
            == row_tally(t2[i]) by {
            assert(t2[i] == r2[i + 1]);
            assert(m2.contains_key(r2[i + 1].key));
        }
        assert forall|q: Seq<char>| n2.contains_key(q) implies exists|i: int| 0 <= i < t2.len() && #[trigger] t2[i].key == q by {
            let i = choose|i: int| 0 <= i < r2.len() && #[trigger] r2[i].key == q;
            assert(i != 0);
            assert(t2[i - 1] == r2[i]);
        }
        assert forall|i: int, x: int| 0 <= i < x < t2.len() implies t2[i].key != t2[x].key by {
            assert(t2[i] == r2[i + 1] && t2[x] == r2[x + 1]);
        }
        assert forall|i: int, x: int| 0 <= i < x < t1.len() implies row_before(t1[i], t1[x], by) by {
            assert(t1[i] == r1[i + 1] && t1[x] == r1[x + 1]);
        }
        assert forall|i: int, x: int| 0 <= i < x < t2.len() implies row_before(t2[i], t2[x], by) by {
            assert(t2[i] == r2[i + 1] && t2[x] == r2[x + 1]);
        }
        lemma_sorted_rows_unique(t1, t2, n1, n2, by);
        assert(untagged(a) == untagged(b));
        assert(untagged_rows(r1) =~= seq![untagged(a)] + untagged_rows(t1));
        assert(untagged_rows(r2) =~= seq![untagged(b)] + untagged_rows(t2));
    }
}

} // verus!
