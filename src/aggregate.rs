//! The direction-aware merge of two sequences of log entries.
use vstd::prelude::*;

use crate::direction::Direction;

verus! {

/// A log entry as the merge sees it: a timestamp in nanoseconds and a line.
pub type EntryView = (i64, Seq<char>);

pub open spec fn entry_view(e: (i64, String)) -> EntryView {
    (e.0, e.1@)
}

pub open spec fn entries_view(v: Seq<(i64, String)>) -> Seq<EntryView> {
    v.map_values(|e: (i64, String)| entry_view(e))
}

/// The highest index whose timestamp is below `t`.
pub open spec fn last_below(a: Seq<EntryView>, t: i64) -> Option<int>
    decreases a.len(),
{
    if a.len() == 0 {
        None
    } else if a.last().0 < t {
        Some(a.len() - 1)
    } else {
        last_below(a.drop_last(), t)
    }
}

/// The highest index whose timestamp is above `t`.
pub open spec fn last_above(a: Seq<EntryView>, t: i64) -> Option<int>
    decreases a.len(),
{
    if a.len() == 0 {
        None
    } else if a.last().0 > t {
        Some(a.len() - 1)
    } else {
        last_above(a.drop_last(), t)
    }
}

/// The lowest index at or after `i` whose timestamp is at most `t`.
pub open spec fn first_at_most_from(a: Seq<EntryView>, t: i64, i: int) -> Option<int>
    decreases a.len() - i,
{
    if i < 0 || i >= a.len() {
        None
    } else if a[i].0 <= t {
        Some(i)
    } else {
        first_at_most_from(a, t, i + 1)
    }
}

/// The lowest index whose timestamp is at most `t`.
pub open spec fn first_at_most(a: Seq<EntryView>, t: i64) -> Option<int> {
    first_at_most_from(a, t, 0)
}

/// Where a new entry with timestamp `t` goes in `a`. Forward: after the last
/// older entry; failing that, after the first entry not newer; else first.
/// Backward: before the first entry not newer; failing that, after the last
/// newer entry; else first.
pub open spec fn insert_position(a: Seq<EntryView>, t: i64, d: Direction) -> int {
    match d {
        Direction::Forward => match last_below(a, t) {
            Some(i) => i + 1,
            None => match first_at_most(a, t) {
                Some(i) => i + 1,
                None => 0,
            },
        },
        Direction::Backward => match first_at_most(a, t) {
            Some(i) => i,
            None => match last_above(a, t) {
                Some(i) => i + 1,
                None => 0,
            },
        },
    }
}

/// `a` with `e` added, unless `a` already holds it.
pub open spec fn merge_entry(a: Seq<EntryView>, e: EntryView, d: Direction) -> Seq<EntryView> {
    if a.contains(e) {
        a
    } else {
        a.insert(insert_position(a, e.0, d), e)
    }
}

/// `a` with the entries of `b` added one by one, in the order of `b`.
pub open spec fn merge_entries(a: Seq<EntryView>, b: Seq<EntryView>, d: Direction) -> Seq<EntryView>
    decreases b.len(),
{
    if b.len() == 0 {
        a
    } else {
        merge_entry(merge_entries(a, b.drop_last(), d), b.last(), d)
    }
}

proof fn lemma_last_below_range(a: Seq<EntryView>, t: i64)
    ensures
        last_below(a, t) matches Some(i) ==> 0 <= i < a.len() && a[i].0 < t && forall|j: int|
            i < j < a.len() ==> a[j].0 >= t,
        last_below(a, t) is None ==> forall|j: int| 0 <= j < a.len() ==> a[j].0 >= t,
    decreases a.len(),
{
    if a.len() > 0 {
        lemma_last_below_range(a.drop_last(), t);
        assert(forall|j: int| 0 <= j < a.len() - 1 ==> a.drop_last()[j] == a[j]);
    }
}

proof fn lemma_last_above_range(a: Seq<EntryView>, t: i64)
    ensures
        last_above(a, t) matches Some(i) ==> 0 <= i < a.len() && a[i].0 > t && forall|j: int|
            i < j < a.len() ==> a[j].0 <= t,
        last_above(a, t) is None ==> forall|j: int| 0 <= j < a.len() ==> a[j].0 <= t,
    decreases a.len(),
{
    if a.len() > 0 {
        lemma_last_above_range(a.drop_last(), t);
        assert(forall|j: int| 0 <= j < a.len() - 1 ==> a.drop_last()[j] == a[j]);
    }
}

proof fn lemma_first_at_most_range(a: Seq<EntryView>, t: i64, i: int)
    requires
        0 <= i,
    ensures
        first_at_most_from(a, t, i) matches Some(j) ==> i <= j < a.len() && a[j].0 <= t && forall|
            k: int,
        | i <= k < j ==> a[k].0 > t,
        first_at_most_from(a, t, i) is None ==> forall|k: int| i <= k < a.len() ==> a[k].0 > t,
    decreases a.len() - i,
{
    if 0 <= i < a.len() {
        lemma_first_at_most_range(a, t, i + 1);
    }
}

proof fn lemma_insert_position_range(a: Seq<EntryView>, t: i64, d: Direction)
    ensures
        0 <= insert_position(a, t, d) <= a.len(),
{
    lemma_last_below_range(a, t);
    lemma_last_above_range(a, t);
    lemma_first_at_most_range(a, t, 0);
}

/// Every entry stands at or before each later one in the order of `d`:
/// timestamps never decrease going `Forward`, never increase going `Backward`.
pub open spec fn ordered_in(a: Seq<EntryView>, d: Direction) -> bool {
    forall|i: int, j: int|
        0 <= i < j < a.len() ==> match d {
            Direction::Forward => #[trigger] a[i].0 <= #[trigger] a[j].0,
            Direction::Backward => a[i].0 >= a[j].0,
        }
}

proof fn lemma_insert_contains(a: Seq<EntryView>, p: int, e: EntryView)
    requires
        0 <= p <= a.len(),
    ensures
        forall|x: EntryView| #[trigger] a.insert(p, e).contains(x) <==> (a.contains(x) || x == e),
{
    let r = a.insert(p, e);
    assert forall|x: EntryView| #[trigger] r.contains(x) <==> (a.contains(x) || x == e) by {
        if r.contains(x) {
            let k = choose|k: int| 0 <= k < r.len() && r[k] == x;
            if k < p {
                assert(a[k] == x);
            } else if k > p {
                assert(a[k - 1] == x);
            }
        }
        if a.contains(x) {
            let k = choose|k: int| 0 <= k < a.len() && a[k] == x;
            if k < p {
                assert(r[k] == x);
            } else {
                assert(r[k + 1] == x);
            }
        }
        if x == e {
            assert(r[p] == x);
        }
    }
}

/// The entries of the merge are those of `a` and those of `b`.
pub proof fn lemma_merge_entries_contents(a: Seq<EntryView>, b: Seq<EntryView>, d: Direction)
    ensures
        forall|x: EntryView| #[trigger] merge_entries(a, b, d).contains(x) <==> (a.contains(x) || b.contains(x)),
    decreases b.len(),
{
    if b.len() > 0 {
        let m = merge_entries(a, b.drop_last(), d);
        lemma_merge_entries_contents(a, b.drop_last(), d);
        if !m.contains(b.last()) {
            lemma_insert_position_range(m, b.last().0, d);
            lemma_insert_contains(m, insert_position(m, b.last().0, d), b.last());
        }
        assert forall|x: EntryView| b.contains(x) <==> (b.drop_last().contains(x) || x == b.last()) by {
            if b.contains(x) {
                let k = choose|k: int| 0 <= k < b.len() && b[k] == x;
                if k < b.len() - 1 {
                    assert(b.drop_last()[k] == x);
                }
            }
            if b.drop_last().contains(x) {
                let k = choose|k: int| 0 <= k < b.len() - 1 && b.drop_last()[k] == x;
                assert(b[k] == x);
            }
            if x == b.last() {
                assert(b[b.len() - 1] == x);
            }
        }
    }
}

/// Merging never puts the same entry twice into a sequence that held none twice.
pub proof fn lemma_merge_entries_no_duplicates(a: Seq<EntryView>, b: Seq<EntryView>, d: Direction)
    requires
        a.no_duplicates(),
    ensures
        merge_entries(a, b, d).no_duplicates(),
    decreases b.len(),
{
    if b.len() > 0 {
        let m = merge_entries(a, b.drop_last(), d);
        lemma_merge_entries_no_duplicates(a, b.drop_last(), d);
        if !m.contains(b.last()) {
            let p = insert_position(m, b.last().0, d);
            lemma_insert_position_range(m, b.last().0, d);
            let r = m.insert(p, b.last());
            assert forall|i: int, j: int| 0 <= i < r.len() && 0 <= j < r.len() && i != j implies r[i] != r[j] by {
                if i != p && j != p {
                    let mi = if i < p { i } else { i - 1 };
                    let mj = if j < p { j } else { j - 1 };
                    assert(r[i] == m[mi] && r[j] == m[mj]);
                } else if i == p {
                    let mj = if j < p { j } else { j - 1 };
                    assert(r[j] == m[mj]);
                } else {
                    let mi = if i < p { i } else { i - 1 };
                    assert(r[i] == m[mi]);
                }
            }
        }
    }
}

proof fn lemma_insert_position_ordered(a: Seq<EntryView>, t: i64, d: Direction)
    requires
        ordered_in(a, d),
    ensures
        forall|i: int| 0 <= i < insert_position(a, t, d) ==> match d {
            Direction::Forward => #[trigger] a[i].0 <= t,
            Direction::Backward => a[i].0 >= t,
        },
        forall|i: int| insert_position(a, t, d) <= i < a.len() ==> match d {
            Direction::Forward => #[trigger] a[i].0 >= t,
            Direction::Backward => a[i].0 <= t,
        },
{
    lemma_last_below_range(a, t);
    lemma_last_above_range(a, t);
    lemma_first_at_most_range(a, t, 0);
    match d {
        Direction::Forward => {
            if let Some(i) = last_below(a, t) {
                assert(forall|k: int| 0 <= k < i ==> a[k].0 <= a[i].0);
            } else if let Some(i) = first_at_most(a, t) {
                if i > 0 {
                    assert(a[0].0 <= a[i].0);
                }
            }
        },
        Direction::Backward => {
            if let Some(i) = first_at_most(a, t) {
                assert(forall|k: int| i < k < a.len() ==> a[k].0 <= a[i].0);
            } else if let Some(i) = last_above(a, t) {
                assert(i == a.len() - 1);
            }
        },
    }
}

/// Merging into a sequence ordered in `d` keeps it ordered in `d`, whatever
/// the order of the entries added.
pub proof fn lemma_merge_entries_ordered(a: Seq<EntryView>, b: Seq<EntryView>, d: Direction)
    requires
        ordered_in(a, d),
    ensures
        ordered_in(merge_entries(a, b, d), d),
    decreases b.len(),
{
    if b.len() > 0 {
        let m = merge_entries(a, b.drop_last(), d);
        lemma_merge_entries_ordered(a, b.drop_last(), d);
        if !m.contains(b.last()) {
            let e = b.last();
            let p = insert_position(m, e.0, d);
            lemma_insert_position_range(m, e.0, d);
            lemma_insert_position_ordered(m, e.0, d);
            let r = m.insert(p, e);
            assert forall|i: int, j: int| 0 <= i < j < r.len() implies match d {
                Direction::Forward => #[trigger] r[i].0 <= #[trigger] r[j].0,
                Direction::Backward => r[i].0 >= r[j].0,
            } by {
                if i < p && j < p {
                    assert(r[i] == m[i] && r[j] == m[j]);
                } else if i < p && j == p {
                    assert(r[i] == m[i]);
                } else if i < p {
                    assert(r[i] == m[i] && r[j] == m[j - 1]);
                } else if i == p {
                    assert(r[j] == m[j - 1]);
                } else {
                    assert(r[i] == m[i - 1] && r[j] == m[j - 1]);
                }
            }
        }
    }
}

/// Whether `v` holds `e`.
fn contains_entry(v: &Vec<(i64, String)>, e: &(i64, String)) -> (r: bool)
    ensures
        r == entries_view(v@).contains(entry_view(*e)),
{
    let mut i: usize = 0;
    while i < v.len()
        invariant
            i <= v@.len(),
            forall|j: int| 0 <= j < i ==> entry_view(v@[j]) != entry_view(*e),
        decreases v@.len() - i,
    {
        if v[i].0 == e.0 && v[i].1 == e.1 {
            proof {
                assert(entries_view(v@)[i as int] == entry_view(*e));
            }
            return true;
        }
        i = i + 1;
    }
    proof {
        if entries_view(v@).contains(entry_view(*e)) {
            let j = choose|j: int| 0 <= j < v@.len() && entries_view(v@)[j] == entry_view(*e);
            assert(entry_view(v@[j]) != entry_view(*e));
        }
    }
    false
}

/// The index that `insert_position` gives, computed by scans over `v`.
fn insert_index(v: &Vec<(i64, String)>, t: i64, d: Direction) -> (r: usize)
    ensures
        r as int == insert_position(entries_view(v@), t, d),
{
    let ghost a = entries_view(v@);
    let n = v.len();
    // the highest index below, or above, `t`, as `last_below` / `last_above`
    let mut last: Option<usize> = None;
    let mut k: usize = n;
    proof {
        assert(a.subrange(0, n as int) =~= a);
    }
    while k > 0 && last.is_none()
        invariant
            k <= n == v@.len(),
            a == entries_view(v@),
            last is None ==> match d {
                Direction::Forward => last_below(a, t) == last_below(a.subrange(0, k as int), t),
                Direction::Backward => last_above(a, t) == last_above(a.subrange(0, k as int), t),
            },
            last matches Some(i) ==> i < n,
            last matches Some(i) ==> match d {
                Direction::Forward => last_below(a, t) == Some(i as int),
                Direction::Backward => last_above(a, t) == Some(i as int),
            },
        decreases k,
    {
        let ts = v[k - 1].0;
        proof {
            assert(a.subrange(0, k as int).drop_last() =~= a.subrange(0, k - 1));
            assert(a.subrange(0, k as int).last() == a[k - 1]);
        }
        let hit = match d {
            Direction::Forward => ts < t,
            Direction::Backward => ts > t,
        };
        if hit {
            last = Some(k - 1);
        }
        k = k - 1;
    }
    proof {
        if last is None {
            assert(a.subrange(0, k as int).len() == 0);
        }
    }
    // the lowest index at most `t`, as `first_at_most`
    let mut first: Option<usize> = None;
    let mut j: usize = 0;
    while j < n && first.is_none()
        invariant
            j <= n == v@.len(),
            a == entries_view(v@),
            first is None ==> first_at_most(a, t) == first_at_most_from(a, t, j as int),
            first matches Some(i) ==> first_at_most(a, t) == Some(i as int),
            first matches Some(i) ==> i < n,
            last matches Some(i) ==> i < n,
        decreases n - j,
    {
        if v[j].0 <= t {
            first = Some(j);
        }
        j = j + 1;
    }
    match d {
        Direction::Forward => match last {
            Some(i) => i + 1,
            None => match first {
                Some(i) => i + 1,
                None => 0,
            },
        },
        Direction::Backward => match first {
            Some(i) => i,
            None => match last {
                Some(i) => i + 1,
                None => 0,
            },
        },
    }
}

/// Merges `set_b` into `set_a`: each entry of `set_b` that `set_a` does not
/// hold yet is inserted where `direction` puts it; the entries of `set_a`
/// keep their order.
pub fn aggregate(set_a: Vec<(i64, String)>, set_b: Vec<(i64, String)>, direction: Direction) -> (r: Vec<(i64, String)>)
    ensures
        entries_view(r@) == merge_entries(entries_view(set_a@), entries_view(set_b@), direction),
{
    let ghost a0 = entries_view(set_a@);
    let ghost b0 = entries_view(set_b@);
    let mut result = set_a;
    let mut i: usize = 0;
    while i < set_b.len()
        invariant
            i <= set_b@.len(),
            b0 == entries_view(set_b@),
            entries_view(result@) == merge_entries(a0, b0.subrange(0, i as int), direction),
        decreases set_b@.len() - i,
    {
        let item = (set_b[i].0, set_b[i].1.clone());
        let ghost before = entries_view(result@);
        proof {
            assert(b0.subrange(0, i + 1).drop_last() =~= b0.subrange(0, i as int));
            assert(b0.subrange(0, i + 1).last() == entry_view(item));
        }
        if !contains_entry(&result, &item) {
            let p = insert_index(&result, item.0, direction);
            proof {
                lemma_insert_position_range(before, item.0, direction);
            }
            result.insert(p, item);
            proof {
                assert(entries_view(result@) =~= before.insert(p as int, entry_view(item)));
            }
        }
        i = i + 1;
    }
    proof {
        assert(b0.subrange(0, i as int) =~= b0);
    }
    result
}

} // verus!
