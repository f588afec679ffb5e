//! A small association table: a vector of `(key, value)` entries with
//! pairwise-distinct keys, read as a total map from keys to balances
//! whose default value is zero. Both the per-account share ledger of a
//! pool and the currency ledger are tables of this shape.

use vstd::prelude::*;

verus! {

/// No key occurs twice.
pub open spec fn distinct_keys(s: Seq<(u128, u128)>) -> bool {
    forall|i: int, j: int| 0 <= i < j < s.len() ==> #[trigger] s[i].0 != #[trigger] s[j].0
}

/// The value stored under `k`: the first matching entry, or zero when
/// there is none.
pub open spec fn lookup(s: Seq<(u128, u128)>, k: u128) -> u128
    decreases s.len(),
{
    if s.len() == 0 {
        0
    } else if s[0].0 == k {
        s[0].1
    } else {
        lookup(s.drop_first(), k)
    }
}

/// The sum of all stored values.
pub open spec fn sum_values(s: Seq<(u128, u128)>) -> int
    decreases s.len(),
{
    if s.len() == 0 {
        0int
    } else {
        s[0].1 + sum_values(s.drop_first())
    }
}

pub proof fn lemma_sum_nonneg(s: Seq<(u128, u128)>)
    ensures
        sum_values(s) >= 0,
    decreases s.len(),
{
    if s.len() > 0 {
        lemma_sum_nonneg(s.drop_first());
    }
}

/// Any single stored value is at most the sum of all of them.
pub proof fn lemma_lookup_le_sum(s: Seq<(u128, u128)>, k: u128)
    ensures
        lookup(s, k) <= sum_values(s),
    decreases s.len(),
{
    if s.len() > 0 {
        if s[0].0 == k {
            lemma_sum_nonneg(s.drop_first());
        } else {
            lemma_lookup_le_sum(s.drop_first(), k);
        }
    }
}

/// With distinct keys, an entry's value is the value looked up under its key.
pub proof fn lemma_lookup_found(s: Seq<(u128, u128)>, i: int)
    requires
        distinct_keys(s),
        0 <= i < s.len(),
    ensures
        lookup(s, s[i].0) == s[i].1,
    decreases s.len(),
{
    if i > 0 {
        assert(s[0].0 != s[i].0);
        assert(distinct_keys(s.drop_first())) by {
            assert forall|x: int, y: int| 0 <= x < y < s.drop_first().len() implies
                s.drop_first()[x].0 != s.drop_first()[y].0 by {
                assert(s[x + 1].0 != s[y + 1].0);
            }
        }
        lemma_lookup_found(s.drop_first(), i - 1);
    }
}

/// A key that no entry carries looks up to zero.
pub proof fn lemma_lookup_none(s: Seq<(u128, u128)>, k: u128)
    requires
        forall|i: int| 0 <= i < s.len() ==> #[trigger] s[i].0 != k,
    ensures
        lookup(s, k) == 0,
    decreases s.len(),
{
    if s.len() > 0 {
        lemma_lookup_none(s.drop_first(), k);
    }
}

/// Replacing the value of entry `i` changes only the lookup of its key,
/// and changes the sum by the difference.
pub proof fn lemma_update(s: Seq<(u128, u128)>, i: int, v: u128, k: u128)
    requires
        distinct_keys(s),
        0 <= i < s.len(),
    ensures
        lookup(s.update(i, (s[i].0, v)), k)
            == if k == s[i].0 { v } else { lookup(s, k) },
        sum_values(s.update(i, (s[i].0, v))) == sum_values(s) - s[i].1 + v,
        distinct_keys(s.update(i, (s[i].0, v))),
    decreases s.len(),
{
    let s2 = s.update(i, (s[i].0, v));
    assert(distinct_keys(s2)) by {
        assert forall|x: int, y: int| 0 <= x < y < s2.len() implies
            s2[x].0 != s2[y].0 by {
            assert(s[x].0 != s[y].0);
        }
    }
    if i == 0 {
        assert(s2.drop_first() =~= s.drop_first());
    } else {
        assert(s2[0] == s[0]);
        assert(s2.drop_first() =~= s.drop_first().update(i - 1, (s[i].0, v)));
        assert(distinct_keys(s.drop_first())) by {
            assert forall|x: int, y: int| 0 <= x < y < s.drop_first().len() implies
                s.drop_first()[x].0 != s.drop_first()[y].0 by {
                assert(s[x + 1].0 != s[y + 1].0);
            }
        }
        lemma_update(s.drop_first(), i - 1, v, k);
        if k == s[0].0 {
            assert(s[0].0 != s[i].0);
        }
    }
}

/// Appending an entry under a fresh key leaves every other lookup as it
/// was and adds the new value to the sum.
pub proof fn lemma_push(s: Seq<(u128, u128)>, k: u128, v: u128, q: u128)
    requires
        forall|i: int| 0 <= i < s.len() ==> #[trigger] s[i].0 != k,
    ensures
        lookup(s.push((k, v)), q) == if q == k { v } else { lookup(s, q) },
        sum_values(s.push((k, v))) == sum_values(s) + v,
        distinct_keys(s) ==> distinct_keys(s.push((k, v))),
    decreases s.len(),
{
    let s2 = s.push((k, v));
    assert(s2[0] == if s.len() == 0 { (k, v) } else { s[0] });
    if s.len() == 0 {
        assert(s2.drop_first() =~= Seq::<(u128, u128)>::empty());
        assert(lookup(Seq::<(u128, u128)>::empty(), q) == 0);
        assert(sum_values(Seq::<(u128, u128)>::empty()) == 0);
    } else {
        assert(s2[0] == s[0]);
        assert(s2.drop_first() =~= s.drop_first().push((k, v)));
        assert forall|i: int| 0 <= i < s.drop_first().len() implies
            #[trigger] s.drop_first()[i].0 != k by {
            assert(s.drop_first()[i] == s[i + 1]);
        }
        lemma_push(s.drop_first(), k, v, q);
        if q == k {
            assert(s[0].0 != k);
        }
    }
    if distinct_keys(s) {
        assert forall|x: int, y: int| 0 <= x < y < s2.len() implies
            s2[x].0 != s2[y].0 by {
            if y < s.len() {
                assert(s[x].0 != s[y].0);
            } else {
                assert(s[x].0 != k);
            }
        }
    }
}

/// Reads the value stored under `k`.
pub fn table_get(t: &Vec<(u128, u128)>, k: u128) -> (r: u128)
    ensures
        r == lookup(t@, k),
{
    let mut j: usize = 0;
    proof {
        assert(t@.skip(0) =~= t@);
    }
    while j < t.len()
        invariant
            0 <= j <= t.len(),
            lookup(t@, k) == lookup(t@.skip(j as int), k),
        decreases t.len() - j,
    {
        if t[j].0 == k {
            assert(t@.skip(j as int)[0] == t@[j as int]);
            return t[j].1;
        }
        assert(t@.skip(j as int).drop_first() =~= t@.skip(j as int + 1));
        j += 1;
    }
    proof {
        assert(t@.skip(t@.len() as int) =~= Seq::<(u128, u128)>::empty());
    }
    0
}

/// The index of the entry that carries `k`, if there is one.
fn table_find(t: &Vec<(u128, u128)>, k: u128) -> (r: Option<usize>)
    ensures
        match r {
            Some(i) => i < t@.len() && t@[i as int].0 == k,
            None => forall|i: int| 0 <= i < t@.len() ==> #[trigger] t@[i].0 != k,
        },
{
    let mut j: usize = 0;
    while j < t.len()
        invariant
            0 <= j <= t.len(),
            forall|i: int| 0 <= i < j ==> #[trigger] t@[i].0 != k,
        decreases t.len() - j,
    {
        if t[j].0 == k {
            return Some(j);
        }
        j += 1;
    }
    None
}

/// Adds `d` to the value stored under `k`, creating the entry if absent.
pub fn table_add(t: &mut Vec<(u128, u128)>, k: u128, d: u128)
    requires
        distinct_keys(old(t)@),
        lookup(old(t)@, k) + d <= u128::MAX,
    ensures
        distinct_keys(final(t)@),
        lookup(final(t)@, k) == lookup(old(t)@, k) + d,
        forall|q: u128| q != k ==> lookup(final(t)@, q) == lookup(old(t)@, q),
        sum_values(final(t)@) == sum_values(old(t)@) + d,
{
    match table_find(t, k) {
        Some(i) => {
            proof {
                lemma_lookup_found(t@, i as int);
            }
            let v = t[i].1;
            proof {
                lemma_update(t@, i as int, (v + d) as u128, k);
                assert forall|q: u128| q != k implies
                    lookup(t@.update(i as int, (t@[i as int].0, (v + d) as u128)), q)
                        == lookup(t@, q) by {
                    lemma_update(t@, i as int, (v + d) as u128, q);
                }
            }
            t[i] = (k, v + d);
        }
        None => {
            proof {
                lemma_lookup_none(t@, k);
                lemma_push(t@, k, d, k);
                assert forall|q: u128| q != k implies
                    lookup(t@.push((k, d)), q) == lookup(t@, q) by {
                    lemma_push(t@, k, d, q);
                }
            }
            t.push((k, d));
        }
    }
}

/// Subtracts `d` from the value stored under `k`; the entry must hold at
/// least `d`. An entry that reaches zero is kept, since a zero entry and
/// an absent one read the same.
pub fn table_sub(t: &mut Vec<(u128, u128)>, k: u128, d: u128)
    requires
        distinct_keys(old(t)@),
        d <= lookup(old(t)@, k),
    ensures
        distinct_keys(final(t)@),
        lookup(final(t)@, k) == lookup(old(t)@, k) - d,
        forall|q: u128| q != k ==> lookup(final(t)@, q) == lookup(old(t)@, q),
        sum_values(final(t)@) == sum_values(old(t)@) - d,
{
    match table_find(t, k) {
        Some(i) => {
            proof {
                lemma_lookup_found(t@, i as int);
            }
            let v = t[i].1;
            proof {
                lemma_update(t@, i as int, (v - d) as u128, k);
                assert forall|q: u128| q != k implies
                    lookup(t@.update(i as int, (t@[i as int].0, (v - d) as u128)), q)
                        == lookup(t@, q) by {
                    lemma_update(t@, i as int, (v - d) as u128, q);
                }
            }
            t[i] = (k, v - d);
        }
        None => {
            proof {
                lemma_lookup_none(t@, k);
            }
        }
    }
}

} // verus!
