//! Association tables: ordered key/count pairs with first-insertion
//! order, the model of the per-match and global counters.

use vstd::prelude::*;

verus! {

/// The key `k` stands in the table.
pub open spec fn assoc_has(m: Seq<(Seq<char>, int)>, k: Seq<char>) -> bool
    decreases m.len(),
{
    m.len() > 0 && (m[0].0 == k || assoc_has(m.drop_first(), k))
}

/// The count stored under `k`, zero when `k` is absent.
pub open spec fn assoc_get(m: Seq<(Seq<char>, int)>, k: Seq<char>) -> int
    decreases m.len(),
{
    if m.len() == 0 {
        0
    } else if m[0].0 == k {
        m[0].1
    } else {
        assoc_get(m.drop_first(), k)
    }
}

/// The table with `d` added to the count under `k`: the first entry
/// holding `k` is updated in place, or a fresh entry `(k, d)` is
/// appended at the end.
pub open spec fn assoc_add(m: Seq<(Seq<char>, int)>, k: Seq<char>, d: int) -> Seq<
    (Seq<char>, int),
>
    decreases m.len(),
{
    if m.len() == 0 {
        seq![(k, d)]
    } else if m[0].0 == k {
        seq![(m[0].0, m[0].1 + d)] + m.drop_first()
    } else {
        seq![m[0]] + assoc_add(m.drop_first(), k, d)
    }
}

/// Every key appears at most once.
pub open spec fn distinct_keys(m: Seq<(Seq<char>, int)>) -> bool {
    forall|i: int, j: int| 0 <= i < j < m.len() ==> m[i].0 != m[j].0
}

/// When `k` first appears at position `i`, the lookup reads that entry
/// and an addition updates it in place.
pub proof fn lemma_assoc_found(m: Seq<(Seq<char>, int)>, k: Seq<char>, d: int, i: int)
    requires
        0 <= i < m.len(),
        m[i].0 == k,
        forall|j: int| 0 <= j < i ==> m[j].0 != k,
    ensures
        assoc_has(m, k),
        assoc_get(m, k) == m[i].1,
        assoc_add(m, k, d) == m.update(i, (m[i].0, m[i].1 + d)),
    decreases i,
{
    if i == 0 {
        assert(assoc_add(m, k, d) =~= m.update(0, (m[0].0, m[0].1 + d)));
    } else {
        assert(m.drop_first()[i - 1].0 == k);
        assert(forall|j: int| 0 <= j < i - 1 ==> m.drop_first()[j].0 != k);
        lemma_assoc_found(m.drop_first(), k, d, i - 1);
        assert(assoc_add(m, k, d) =~= m.update(i, (m[i].0, m[i].1 + d)));
    }
}

/// When `k` appears nowhere, the lookup yields zero and an addition
/// appends a fresh entry.
pub proof fn lemma_assoc_absent(m: Seq<(Seq<char>, int)>, k: Seq<char>, d: int)
    requires
        forall|j: int| 0 <= j < m.len() ==> m[j].0 != k,
    ensures
        !assoc_has(m, k),
        assoc_get(m, k) == 0,
        assoc_add(m, k, d) == m.push((k, d)),
    decreases m.len(),
{
    if m.len() == 0 {
        assert(assoc_add(m, k, d) =~= m.push((k, d)));
    } else {
        assert(forall|j: int| 0 <= j < m.drop_first().len() ==> m.drop_first()[j].0 != k);
        lemma_assoc_absent(m.drop_first(), k, d);
        assert(assoc_add(m, k, d) =~= m.push((k, d)));
    }
}

/// An addition under `k` changes the count under `k` by `d` and leaves
/// every other key's count and presence unchanged.
pub proof fn lemma_assoc_add_get(m: Seq<(Seq<char>, int)>, k: Seq<char>, d: int, k2: Seq<char>)
    ensures
        assoc_get(assoc_add(m, k, d), k2) == if k2 == k {
            assoc_get(m, k2) + d
        } else {
            assoc_get(m, k2)
        },
        assoc_has(assoc_add(m, k, d), k2) == (assoc_has(m, k2) || k2 == k),
    decreases m.len(),
{
    reveal_with_fuel(assoc_get, 3);
    reveal_with_fuel(assoc_has, 3);
    reveal_with_fuel(assoc_add, 3);
    if m.len() == 0 {
        assert(assoc_add(m, k, d) == seq![(k, d)]);
        assert(assoc_add(m, k, d).drop_first() =~= Seq::<(Seq<char>, int)>::empty());
    } else if m[0].0 == k {
        let r = assoc_add(m, k, d);
        assert(r == seq![(m[0].0, m[0].1 + d)] + m.drop_first());
        assert(r.drop_first() =~= m.drop_first());
    } else {
        let r = assoc_add(m, k, d);
        assert(r == seq![m[0]] + assoc_add(m.drop_first(), k, d));
        assert(r.drop_first() =~= assoc_add(m.drop_first(), k, d));
        lemma_assoc_add_get(m.drop_first(), k, d, k2);
    }
}

/// An addition keeps the keys distinct.
pub proof fn lemma_assoc_add_distinct(m: Seq<(Seq<char>, int)>, k: Seq<char>, d: int)
    requires
        distinct_keys(m),
    ensures
        distinct_keys(assoc_add(m, k, d)),
    decreases m.len(),
{
    if m.len() == 0 {
    } else if m[0].0 == k {
        let r = assoc_add(m, k, d);
        assert(r == seq![(m[0].0, m[0].1 + d)] + m.drop_first());
        assert forall|i: int, j: int| 0 <= i < j < r.len() implies r[i].0 != r[j].0 by {
            assert(r[j].0 == m[j].0);
            if i > 0 {
                assert(r[i].0 == m[i].0);
            }
        }
    } else {
        assert(forall|i: int, j: int|
            0 <= i < j < m.drop_first().len() ==> m.drop_first()[i].0 != m.drop_first()[j].0);
        lemma_assoc_add_distinct(m.drop_first(), k, d);
        let r = assoc_add(m, k, d);
        let rd = assoc_add(m.drop_first(), k, d);
        assert(r == seq![m[0]] + rd);
        lemma_assoc_add_keys(m.drop_first(), k, d);
        assert forall|i: int, j: int| 0 <= i < j < r.len() implies r[i].0 != r[j].0 by {
            if i == 0 {
                assert(r[j].0 == rd[j - 1].0);
                if exists|x: int| 0 <= x < m.drop_first().len() && m.drop_first()[x].0 == rd[j
                    - 1].0 {
                    let x = choose|x: int|
                        0 <= x < m.drop_first().len() && m.drop_first()[x].0 == rd[j - 1].0;
                    assert(m[x + 1].0 == rd[j - 1].0);
                } else {
                    assert(rd[j - 1].0 == k);
                }
            } else {
                assert(r[i].0 == rd[i - 1].0 && r[j].0 == rd[j - 1].0);
            }
        }
    }
}

/// Every key of an updated table is an old key or the added one.
pub proof fn lemma_assoc_add_keys(m: Seq<(Seq<char>, int)>, k: Seq<char>, d: int)
    ensures
        forall|j: int|
            0 <= j < assoc_add(m, k, d).len() ==> (#[trigger] assoc_add(m, k, d)[j].0 == k
                || exists|x: int| 0 <= x < m.len() && m[x].0 == assoc_add(m, k, d)[j].0),
    decreases m.len(),
{
    let r = assoc_add(m, k, d);
    if m.len() == 0 {
    } else if m[0].0 == k {
        assert forall|j: int| 0 <= j < r.len() implies (r[j].0 == k || exists|x: int|
            0 <= x < m.len() && m[x].0 == r[j].0) by {
            assert(r[j].0 == m[j].0);
        }
    } else {
        lemma_assoc_add_keys(m.drop_first(), k, d);
        let rd = assoc_add(m.drop_first(), k, d);
        assert(r == seq![m[0]] + rd);
        assert forall|j: int| 0 <= j < r.len() implies (r[j].0 == k || exists|x: int|
            0 <= x < m.len() && m[x].0 == r[j].0) by {
            if j == 0 {
                assert(m[0].0 == r[0].0);
            } else {
                assert(r[j].0 == rd[j - 1].0);
                if rd[j - 1].0 != k {
                    let x = choose|x: int|
                        0 <= x < m.drop_first().len() && m.drop_first()[x].0 == rd[j - 1].0;
                    assert(m[x + 1].0 == r[j].0);
                }
            }
        }
    }
}

/// `v` is a count already stored in `m`, or the count under `k` moved
/// by `d`.
pub open spec fn value_from(m: Seq<(Seq<char>, int)>, k: Seq<char>, d: int, v: int) -> bool {
    (exists|j: int| 0 <= j < m.len() && v == m[j].1) || v == assoc_get(m, k) + d
}

/// Every count of an updated table was stored before, or is the
/// updated count itself.
pub proof fn lemma_assoc_add_entries(m: Seq<(Seq<char>, int)>, k: Seq<char>, d: int)
    ensures
        forall|i: int|
            0 <= i < assoc_add(m, k, d).len() ==> value_from(
                m,
                k,
                d,
                #[trigger] assoc_add(m, k, d)[i].1,
            ),
    decreases m.len(),
{
    let r = assoc_add(m, k, d);
    if m.len() == 0 {
        assert(assoc_get(m, k) == 0);
        assert(r[0].1 == assoc_get(m, k) + d);
    } else if m[0].0 == k {
        assert forall|i: int| 0 <= i < r.len() implies value_from(m, k, d, r[i].1) by {
            if i == 0 {
                assert(r[0].1 == assoc_get(m, k) + d);
            } else {
                assert(r[i].1 == m[i].1);
            }
        }
    } else {
        lemma_assoc_add_entries(m.drop_first(), k, d);
        let rd = assoc_add(m.drop_first(), k, d);
        assert(r == seq![m[0]] + rd);
        assert forall|i: int| 0 <= i < r.len() implies value_from(m, k, d, r[i].1) by {
            if i == 0 {
                assert(r[0].1 == m[0].1);
            } else {
                assert(r[i].1 == rd[i - 1].1);
                assert(value_from(m.drop_first(), k, d, rd[i - 1].1));
                if exists|j: int| 0 <= j < m.drop_first().len() && rd[i - 1].1 == m.drop_first()[j].1 {
                    let j = choose|j: int|
                        0 <= j < m.drop_first().len() && rd[i - 1].1 == m.drop_first()[j].1;
                    assert(rd[i - 1].1 == m[j + 1].1);
                } else {
                    assert(rd[i - 1].1 == assoc_get(m.drop_first(), k) + d);
                    assert(assoc_get(m, k) == assoc_get(m.drop_first(), k));
                }
            }
        }
    }
}

/// A key stands in the table exactly when some entry holds it.
pub proof fn lemma_assoc_has_exists(m: Seq<(Seq<char>, int)>, k: Seq<char>)
    ensures
        assoc_has(m, k) <==> exists|j: int| 0 <= j < m.len() && m[j].0 == k,
    decreases m.len(),
{
    if m.len() == 0 {
    } else if m[0].0 == k {
        assert(m[0].0 == k);
    } else {
        lemma_assoc_has_exists(m.drop_first(), k);
        if assoc_has(m, k) {
            let j = choose|j: int| 0 <= j < m.drop_first().len() && m.drop_first()[j].0 == k;
            assert(m[j + 1].0 == k);
        } else {
            if exists|j: int| 0 <= j < m.len() && m[j].0 == k {
                let j = choose|j: int| 0 <= j < m.len() && m[j].0 == k;
                assert(j > 0);
                assert(m.drop_first()[j - 1].0 == k);
            }
        }
    }
}

/// In a table with distinct keys, every entry is what its key looks up.
pub proof fn lemma_assoc_entry_get(m: Seq<(Seq<char>, int)>, i: int)
    requires
        distinct_keys(m),
        0 <= i < m.len(),
    ensures
        assoc_has(m, m[i].0),
        assoc_get(m, m[i].0) == m[i].1,
{
    assert(forall|j: int| 0 <= j < i ==> m[j].0 != m[i].0);
    lemma_assoc_found(m, m[i].0, 0, i);
}

/// The absolute value of `v`.
pub open spec fn abs_of(v: int) -> int {
    if v >= 0 {
        v
    } else {
        -v
    }
}

/// The sum of the absolute values of all counts in the table.
pub open spec fn abs_sum(m: Seq<(Seq<char>, int)>) -> int
    decreases m.len(),
{
    if m.len() == 0 {
        0
    } else {
        abs_of(m[0].1) + abs_sum(m.drop_first())
    }
}

/// The absolute sum is never negative.
pub proof fn lemma_abs_sum_nonneg(m: Seq<(Seq<char>, int)>)
    ensures
        abs_sum(m) >= 0,
    decreases m.len(),
{
    if m.len() > 0 {
        lemma_abs_sum_nonneg(m.drop_first());
    }
}

/// Each count is bounded by the absolute sum.
pub proof fn lemma_abs_entry(m: Seq<(Seq<char>, int)>, i: int)
    requires
        0 <= i < m.len(),
    ensures
        abs_of(m[i].1) <= abs_sum(m),
    decreases i,
{
    lemma_abs_sum_nonneg(m.drop_first());
    if i > 0 {
        lemma_abs_entry(m.drop_first(), i - 1);
    }
}

/// The count under any key is zero or one of the stored counts.
pub proof fn lemma_assoc_get_cases(m: Seq<(Seq<char>, int)>, k: Seq<char>)
    ensures
        assoc_get(m, k) == 0 || exists|j: int| 0 <= j < m.len() && m[j].1 == assoc_get(m, k),
    decreases m.len(),
{
    if m.len() == 0 {
    } else if m[0].0 == k {
        assert(m[0].1 == assoc_get(m, k));
    } else {
        lemma_assoc_get_cases(m.drop_first(), k);
        if assoc_get(m, k) != 0 {
            let j = choose|j: int|
                0 <= j < m.drop_first().len() && m.drop_first()[j].1 == assoc_get(
                    m.drop_first(),
                    k,
                );
            assert(m[j + 1].1 == assoc_get(m, k));
        }
    }
}

/// The count under any key is bounded by the absolute sum.
pub proof fn lemma_assoc_get_abs(m: Seq<(Seq<char>, int)>, k: Seq<char>)
    ensures
        abs_of(assoc_get(m, k)) <= abs_sum(m),
{
    lemma_assoc_get_cases(m, k);
    lemma_abs_sum_nonneg(m);
    if assoc_get(m, k) != 0 {
        let j = choose|j: int| 0 <= j < m.len() && m[j].1 == assoc_get(m, k);
        lemma_abs_entry(m, j);
    }
}

/// An addition of `d` grows the absolute sum by at most the absolute
/// value of `d`.
pub proof fn lemma_assoc_add_abs_sum(m: Seq<(Seq<char>, int)>, k: Seq<char>, d: int)
    ensures
        abs_sum(assoc_add(m, k, d)) <= abs_sum(m) + abs_of(d),
    decreases m.len(),
{
    let r = assoc_add(m, k, d);
    assert(abs_sum(r) == abs_of(r[0].1) + abs_sum(r.drop_first()));
    if m.len() == 0 {
        assert(r.drop_first() =~= Seq::<(Seq<char>, int)>::empty());
        assert(abs_sum(r.drop_first()) == 0);
        assert(r[0] == (k, d));
    } else if m[0].0 == k {
        assert(r.drop_first() =~= m.drop_first());
        assert(r[0].1 == m[0].1 + d);
        assert(abs_of(m[0].1 + d) <= abs_of(m[0].1) + abs_of(d));
    } else {
        assert(r.drop_first() =~= assoc_add(m.drop_first(), k, d));
        assert(r[0] == m[0]);
        lemma_assoc_add_abs_sum(m.drop_first(), k, d);
    }
}

/// Dropping entries never grows the absolute sum.
pub proof fn lemma_filter_abs_sum(m: Seq<(Seq<char>, int)>, pred: spec_fn((Seq<char>, int)) -> bool)
    ensures
        abs_sum(m.filter(pred)) <= abs_sum(m),
    decreases m.len(),
{
    reveal(Seq::filter);
    if m.len() == 0 {
        assert(m.filter(pred) =~= m);
    } else {
        lemma_filter_abs_sum(m.drop_last(), pred);
        lemma_abs_sum_drop_last(m);
        if pred(m.last()) {
            lemma_abs_sum_push(m.drop_last().filter(pred), m.last());
        }
    }
}

/// The absolute sum splits off the last entry.
pub proof fn lemma_abs_sum_drop_last(m: Seq<(Seq<char>, int)>)
    requires
        m.len() > 0,
    ensures
        abs_sum(m) == abs_sum(m.drop_last()) + abs_of(m.last().1),
    decreases m.len(),
{
    if m.len() == 1 {
        assert(m.drop_last() =~= Seq::<(Seq<char>, int)>::empty());
        assert(m.drop_first() =~= Seq::<(Seq<char>, int)>::empty());
    } else {
        lemma_abs_sum_drop_last(m.drop_first());
        assert(m.drop_first().drop_last() =~= m.drop_last().drop_first());
        assert(m.drop_first().last() == m.last());
    }
}

/// The absolute sum of a pushed entry.
pub proof fn lemma_abs_sum_push(m: Seq<(Seq<char>, int)>, x: (Seq<char>, int))
    ensures
        abs_sum(m.push(x)) == abs_sum(m) + abs_of(x.1),
{
    assert(m.push(x).drop_last() =~= m);
    assert(m.push(x).last() == x);
    lemma_abs_sum_drop_last(m.push(x));
}

/// Filtering a sequence with one more element keeps the element
/// exactly when the predicate accepts it.
pub proof fn lemma_filter_push<A>(s: Seq<A>, pred: spec_fn(A) -> bool, x: A)
    ensures
        s.push(x).filter(pred) == if pred(x) {
            s.filter(pred).push(x)
        } else {
            s.filter(pred)
        },
{
    reveal(Seq::filter);
    assert(s.push(x).drop_last() =~= s);
    assert(s.push(x).last() == x);
}

/// The absolute sum splits at any cut.
pub proof fn lemma_abs_sum_split(m: Seq<(Seq<char>, int)>, k: int)
    requires
        0 <= k <= m.len(),
    ensures
        abs_sum(m) == abs_sum(m.take(k)) + abs_sum(m.skip(k)),
    decreases k,
{
    if k == 0 {
        assert(m.take(0) =~= Seq::<(Seq<char>, int)>::empty());
        assert(abs_sum(m.take(0)) == 0);
        assert(m.skip(0) =~= m);
    } else {
        lemma_abs_sum_split(m, k - 1);
        assert(m.take(k) =~= m.take(k - 1).push(m[k - 1]));
        lemma_abs_sum_push(m.take(k - 1), m[k - 1]);
        assert(m.skip(k - 1)[0] == m[k - 1]);
        assert(m.skip(k - 1).drop_first() =~= m.skip(k));
        assert(abs_sum(m.skip(k - 1)) == abs_of(m[k - 1].1) + abs_sum(m.skip(k)));
    }
}

/// Every element of a filtered sequence stands in the original.
pub proof fn lemma_filter_subset<A>(s: Seq<A>, pred: spec_fn(A) -> bool)
    ensures
        forall|x: A| #[trigger] s.filter(pred).contains(x) ==> s.contains(x),
    decreases s.len(),
{
    reveal(Seq::filter);
    if s.len() == 0 {
    } else {
        lemma_filter_subset(s.drop_last(), pred);
        let f = s.filter(pred);
        let fd = s.drop_last().filter(pred);
        assert forall|x: A| #[trigger] f.contains(x) implies s.contains(x) by {
            let k = choose|k: int| 0 <= k < f.len() && f[k] == x;
            if pred(s.last()) && k == f.len() - 1 {
                assert(s[s.len() - 1] == x);
            } else {
                assert(fd[k] == x);
                assert(fd.contains(x));
                let k2 = choose|k2: int| 0 <= k2 < s.drop_last().len() && s.drop_last()[k2] == x;
                assert(s[k2] == x);
            }
        }
    }
}

/// Filtering keeps the keys distinct.
pub proof fn lemma_filter_distinct(m: Seq<(Seq<char>, int)>, pred: spec_fn((Seq<char>, int)) -> bool)
    requires
        distinct_keys(m),
    ensures
        distinct_keys(m.filter(pred)),
    decreases m.len(),
{
    reveal(Seq::filter);
    if m.len() == 0 {
    } else {
        assert(forall|i: int, j: int|
            0 <= i < j < m.drop_last().len() ==> m.drop_last()[i].0 != m.drop_last()[j].0);
        lemma_filter_distinct(m.drop_last(), pred);
        lemma_filter_subset(m.drop_last(), pred);
        let f = m.filter(pred);
        let fd = m.drop_last().filter(pred);
        if pred(m.last()) {
            assert(f == fd.push(m.last()));
            assert forall|i: int, j: int| 0 <= i < j < f.len() implies f[i].0 != f[j].0 by {
                if j == f.len() - 1 {
                    assert(f[i] == fd[i]);
                    assert(fd.contains(fd[i]));
                    assert(m.drop_last().contains(fd[i]));
                    let k = choose|k: int|
                        0 <= k < m.drop_last().len() && m.drop_last()[k] == fd[i];
                    assert(m[k] == fd[i]);
                    assert(m[k].0 != m[m.len() - 1].0);
                } else {
                    assert(f[i] == fd[i] && f[j] == fd[j]);
                }
            }
        }
    }
}

/// The view of a signed tally as an association table.
pub open spec fn tally_view_i(v: Seq<(String, i32)>) -> Seq<(Seq<char>, int)> {
    v.map_values(|e: (String, i32)| (e.0@, e.1 as int))
}

/// The view of an unsigned tally as an association table.
pub open spec fn tally_view_u(v: Seq<(String, u32)>) -> Seq<(Seq<char>, int)> {
    v.map_values(|e: (String, u32)| (e.0@, e.1 as int))
}

/// Adds `d` to the count under `k` in a signed tally.
pub fn tally_add_i(m: &mut Vec<(String, i32)>, k: String, d: i32)
    requires
        i32::MIN <= assoc_get(tally_view_i(old(m)@), k@) + d <= i32::MAX,
    ensures
        tally_view_i(final(m)@) == assoc_add(tally_view_i(old(m)@), k@, d as int),
{
    let ghost mv = tally_view_i(m@);
    let n = m.len();
    let mut i: usize = 0;
    while i < n
        invariant
            i <= n,
            n == m@.len(),
            m@ == old(m)@,
            mv == tally_view_i(m@),
            i32::MIN <= assoc_get(tally_view_i(old(m)@), k@) + d <= i32::MAX,
            forall|j: int| 0 <= j < i ==> mv[j].0 != k@,
        decreases n - i,
    {
        proof {
            assert(mv[i as int] == (m@[i as int].0@, m@[i as int].1 as int));
        }
        if m[i].0 == k {
            proof {
                lemma_assoc_found(mv, k@, d as int, i as int);
            }
            let v = m[i].1;
            proof {
                assert(v as int == mv[i as int].1);
                assert(v as int == assoc_get(tally_view_i(old(m)@), k@));
                assert(i32::MIN <= v as int + d as int <= i32::MAX);
            }
            m.set(i, (k, v + d));
            proof {
                assert(tally_view_i(m@) =~= assoc_add(mv, k@, d as int));
            }
            return ;
        }
        i += 1;
    }
    proof {
        lemma_assoc_absent(mv, k@, d as int);
    }
    m.push((k, d));
    proof {
        assert(tally_view_i(m@) =~= assoc_add(mv, k@, d as int));
    }
}

/// Adds `d` to the count under `k` in an unsigned tally.
pub fn tally_add_u(m: &mut Vec<(String, u32)>, k: String, d: u32)
    requires
        assoc_get(tally_view_u(old(m)@), k@) + d <= u32::MAX,
    ensures
        tally_view_u(final(m)@) == assoc_add(tally_view_u(old(m)@), k@, d as int),
{
    let ghost mv = tally_view_u(m@);
    let n = m.len();
    let mut i: usize = 0;
    while i < n
        invariant
            i <= n,
            n == m@.len(),
            m@ == old(m)@,
            mv == tally_view_u(m@),
            assoc_get(tally_view_u(old(m)@), k@) + d <= u32::MAX,
            forall|j: int| 0 <= j < i ==> mv[j].0 != k@,
        decreases n - i,
    {
        proof {
            assert(mv[i as int] == (m@[i as int].0@, m@[i as int].1 as int));
        }
        if m[i].0 == k {
            proof {
                lemma_assoc_found(mv, k@, d as int, i as int);
            }
            let v = m[i].1;
            proof {
                assert(v as int == mv[i as int].1);
                assert(v as int == assoc_get(tally_view_u(old(m)@), k@));
                assert(v as int + d as int <= u32::MAX);
            }
            m.set(i, (k, v + d));
            proof {
                assert(tally_view_u(m@) =~= assoc_add(mv, k@, d as int));
            }
            return ;
        }
        i += 1;
    }
    proof {
        lemma_assoc_absent(mv, k@, d as int);
    }
    m.push((k, d));
    proof {
        assert(tally_view_u(m@) =~= assoc_add(mv, k@, d as int));
    }
}

/// `n` stands among the names.
pub fn names_contain(ps: &Vec<String>, n: &String) -> (r: bool)
    ensures
        r == crate::text::views(ps@).contains(n@),
{
    let len = ps.len();
    let mut i: usize = 0;
    while i < len
        invariant
            i <= len,
            len == ps@.len(),
            forall|j: int| 0 <= j < i ==> crate::text::views(ps@)[j] != n@,
        decreases len - i,
    {
        if ps[i].eq(n) {
            proof {
                assert(crate::text::views(ps@)[i as int] == n@);
            }
            return true;
        }
        i += 1;
    }
    proof {
        if crate::text::views(ps@).contains(n@) {
            let j = choose|j: int|
                0 <= j < crate::text::views(ps@).len() && crate::text::views(ps@)[j] == n@;
            assert(crate::text::views(ps@)[j] != n@);
        }
    }
    false
}

} // verus!
