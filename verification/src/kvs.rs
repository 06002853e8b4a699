//! An ordered, transactional key-value store held in memory.
//!
//! This is the crate's model of the store the record layer runs
//! against: a strictly sorted association list from byte keys to byte
//! values, with point reads, point writes, deletes, and ordered range
//! scans.  The transaction facade applies its operation plans to a
//! value of this type; a driver around the crate applies the same plans
//! to an external store.

use vstd::prelude::*;

use crate::byteorder::{bytes_eq, bytes_leq, bytes_lt, copy_bytes, lemma_lex_asymmetric,
    lemma_lex_irreflexive, lemma_lex_transitive, lemma_lex_trichotomy, lex_leq, lex_less};

verus! {

/// The mathematical content of a pair list: each pair as its byte
/// sequences.
pub open spec fn kv_views(ps: Seq<(Vec<u8>, Vec<u8>)>) -> Seq<(Seq<u8>, Seq<u8>)> {
    ps.map_values(|p: (Vec<u8>, Vec<u8>)| (p.0@, p.1@))
}

/// Entries strictly sorted by key.
pub open spec fn sorted(es: Seq<(Seq<u8>, Seq<u8>)>) -> bool {
    forall|i: int, j: int| 0 <= i < j < es.len() ==> lex_less(#[trigger] es[i].0, #[trigger] es[j].0)
}

/// The value stored under `k`, if any.
pub open spec fn spec_get(es: Seq<(Seq<u8>, Seq<u8>)>, k: Seq<u8>) -> Option<Seq<u8>>
    decreases es.len(),
{
    if es.len() == 0 {
        None
    } else if es[0].0 == k {
        Some(es[0].1)
    } else {
        spec_get(es.drop_first(), k)
    }
}

/// The entries after storing `v` under `k`, keeping the sort order.
pub open spec fn spec_set(es: Seq<(Seq<u8>, Seq<u8>)>, k: Seq<u8>, v: Seq<u8>) -> Seq<
    (Seq<u8>, Seq<u8>),
>
    decreases es.len(),
{
    if es.len() == 0 {
        seq![(k, v)]
    } else if lex_less(k, es[0].0) {
        seq![(k, v)] + es
    } else if es[0].0 == k {
        seq![(k, v)] + es.drop_first()
    } else {
        seq![es[0]] + spec_set(es.drop_first(), k, v)
    }
}

/// The entries after deleting `k`, if it was there.
pub open spec fn spec_remove(es: Seq<(Seq<u8>, Seq<u8>)>, k: Seq<u8>) -> Seq<(Seq<u8>, Seq<u8>)>
    decreases es.len(),
{
    if es.len() == 0 {
        es
    } else if es[0].0 == k {
        es.drop_first()
    } else {
        seq![es[0]] + spec_remove(es.drop_first(), k)
    }
}

/// The entries whose keys lie in the inclusive range `[from, to]`, in
/// stored order.
pub open spec fn spec_range(
    es: Seq<(Seq<u8>, Seq<u8>)>,
    from: Seq<u8>,
    to: Seq<u8>,
) -> Seq<(Seq<u8>, Seq<u8>)>
    decreases es.len(),
{
    if es.len() == 0 {
        Seq::empty()
    } else {
        (if lex_leq(from, es[0].0) && lex_leq(es[0].0, to) {
            seq![es[0]]
        } else {
            Seq::empty()
        }) + spec_range(es.drop_first(), from, to)
    }
}

proof fn lemma_sorted_drop_first(es: Seq<(Seq<u8>, Seq<u8>)>)
    requires
        sorted(es),
        es.len() > 0,
    ensures
        sorted(es.drop_first()),
{
    assert forall|i: int, j: int|
        0 <= i < j < es.drop_first().len() implies lex_less(
        #[trigger] es.drop_first()[i].0,
        #[trigger] es.drop_first()[j].0,
    ) by {
        assert(es.drop_first()[i] == es[i + 1]);
        assert(es.drop_first()[j] == es[j + 1]);
    }
}

/// Storing under a key then reading gives the stored value back;
/// reading any other key is unchanged.
pub proof fn lemma_set_get(es: Seq<(Seq<u8>, Seq<u8>)>, k: Seq<u8>, v: Seq<u8>, k2: Seq<u8>)
    ensures
        spec_get(spec_set(es, k, v), k2) == (if k2 == k {
            Some(v)
        } else {
            spec_get(es, k2)
        }),
    decreases es.len(),
{
    let r = spec_set(es, k, v);
    if es.len() == 0 {
        assert(r == seq![(k, v)]);
        assert(r.drop_first() =~= Seq::<(Seq<u8>, Seq<u8>)>::empty());
    } else if lex_less(k, es[0].0) {
        assert(r == seq![(k, v)] + es);
        assert(r[0] == (k, v));
        assert(r.drop_first() =~= es);
        if k2 == k {
        } else {
            assert(spec_get(r, k2) == spec_get(es, k2));
        }
    } else if es[0].0 == k {
        assert(r == seq![(k, v)] + es.drop_first());
        assert(r[0] == (k, v));
        assert(r.drop_first() =~= es.drop_first());
        lemma_set_get(es.drop_first(), k, v, k2);
        if k2 != k {
            assert(spec_get(es, k2) == spec_get(es.drop_first(), k2));
        }
    } else {
        assert(r == seq![es[0]] + spec_set(es.drop_first(), k, v));
        assert(r[0] == es[0]);
        assert(r.drop_first() =~= spec_set(es.drop_first(), k, v));
        lemma_set_get(es.drop_first(), k, v, k2);
        if k2 == k {
            assert(es[0].0 != k2);
        }
    }
}

/// Deleting a key empties it; reading any other key is unchanged.
pub proof fn lemma_remove_get(es: Seq<(Seq<u8>, Seq<u8>)>, k: Seq<u8>, k2: Seq<u8>)
    requires
        sorted(es),
    ensures
        spec_get(spec_remove(es, k), k2) == (if k2 == k {
            None::<Seq<u8>>
        } else {
            spec_get(es, k2)
        }),
    decreases es.len(),
{
    let r = spec_remove(es, k);
    if es.len() == 0 {
    } else if es[0].0 == k {
        lemma_sorted_drop_first(es);
        if k2 == k {
            lemma_get_first_less(es.drop_first(), k);
        } else {
            assert(spec_get(es, k2) == spec_get(es.drop_first(), k2));
        }
    } else {
        assert(r == seq![es[0]] + spec_remove(es.drop_first(), k));
        assert(r[0] == es[0]);
        assert(r.drop_first() =~= spec_remove(es.drop_first(), k));
        lemma_sorted_drop_first(es);
        lemma_remove_get(es.drop_first(), k, k2);
    }
}

/// In a sorted list whose first key already exceeds `k`, `k` is not
/// found — specialized here to the tail after a removed head.
proof fn lemma_get_first_less(es: Seq<(Seq<u8>, Seq<u8>)>, k: Seq<u8>)
    requires
        forall|i: int| 0 <= i < es.len() ==> lex_less(k, #[trigger] es[i].0),
    ensures
        spec_get(es, k) is None,
    decreases es.len(),
{
    if es.len() > 0 {
        assert(lex_less(k, es[0].0));
        lemma_lex_irreflexive(k);
        assert forall|i: int| 0 <= i < es.drop_first().len() implies lex_less(
            k,
            #[trigger] es.drop_first()[i].0,
        ) by {
            assert(es.drop_first()[i] == es[i + 1]);
        }
        lemma_get_first_less(es.drop_first(), k);
    }
}

/// Storing keeps the entries sorted.
pub proof fn lemma_set_sorted(es: Seq<(Seq<u8>, Seq<u8>)>, k: Seq<u8>, v: Seq<u8>)
    requires
        sorted(es),
    ensures
        sorted(spec_set(es, k, v)),
    decreases es.len(),
{
    let r = spec_set(es, k, v);
    if es.len() == 0 {
    } else if lex_less(k, es[0].0) {
        assert forall|i: int, j: int| 0 <= i < j < r.len() implies lex_less(
            #[trigger] r[i].0,
            #[trigger] r[j].0,
        ) by {
            if i == 0 {
                assert(r[j] == es[j - 1]);
                if j > 1 {
                    lemma_lex_transitive(k, es[0].0, es[j - 1].0);
                }
            } else {
                assert(r[i] == es[i - 1]);
                assert(r[j] == es[j - 1]);
            }
        }
    } else if es[0].0 == k {
        lemma_sorted_drop_first(es);
        assert forall|i: int, j: int| 0 <= i < j < r.len() implies lex_less(
            #[trigger] r[i].0,
            #[trigger] r[j].0,
        ) by {
            if i == 0 {
                assert(r[j] == es.drop_first()[j - 1]);
                assert(es.drop_first()[j - 1] == es[j]);
            } else {
                assert(r[i] == es[i]);
                assert(r[j] == es[j]);
            }
        }
    } else {
        lemma_lex_trichotomy(k, es[0].0);
        assert(lex_less(es[0].0, k));
        lemma_sorted_drop_first(es);
        lemma_set_sorted(es.drop_first(), k, v);
        let tail = spec_set(es.drop_first(), k, v);
        lemma_set_keys(es.drop_first(), k, v);
        assert forall|i: int, j: int| 0 <= i < j < r.len() implies lex_less(
            #[trigger] r[i].0,
            #[trigger] r[j].0,
        ) by {
            if i == 0 {
                assert(r[j] == tail[j - 1]);
                if tail[j - 1].0 == k {
                } else {
                    assert(spec_get(es.drop_first(), tail[j - 1].0) is Some || exists|t: int|
                        0 <= t < es.drop_first().len() && es.drop_first()[t].0 == tail[j - 1].0)
                        by {
                        lemma_set_keys(es.drop_first(), k, v);
                    }
                    let t = choose|t: int|
                        0 <= t < es.drop_first().len() && es.drop_first()[t].0 == tail[j - 1].0;
                    assert(es.drop_first()[t] == es[t + 1]);
                    assert(lex_less(es[0].0, es[t + 1].0));
                }
            } else {
                assert(r[i] == tail[i - 1]);
                assert(r[j] == tail[j - 1]);
            }
        }
    }
}

/// Every key of the stored list is the new key or one of the old keys.
pub proof fn lemma_set_keys(es: Seq<(Seq<u8>, Seq<u8>)>, k: Seq<u8>, v: Seq<u8>)
    ensures
        forall|i: int|
            0 <= i < spec_set(es, k, v).len() ==> (#[trigger] spec_set(es, k, v)[i].0 == k
                || exists|t: int| 0 <= t < es.len() && es[t].0 == spec_set(es, k, v)[i].0),
    decreases es.len(),
{
    let r = spec_set(es, k, v);
    if es.len() == 0 {
    } else if lex_less(k, es[0].0) {
        assert forall|i: int| 0 <= i < r.len() implies (#[trigger] r[i].0 == k || exists|t: int|
            0 <= t < es.len() && es[t].0 == r[i].0) by {
            if i > 0 {
                assert(r[i] == es[i - 1]);
                assert(es[i - 1].0 == r[i].0);
            }
        }
    } else if es[0].0 == k {
        assert forall|i: int| 0 <= i < r.len() implies (#[trigger] r[i].0 == k || exists|t: int|
            0 <= t < es.len() && es[t].0 == r[i].0) by {
            if i > 0 {
                assert(r[i] == es.drop_first()[i - 1]);
                assert(es[i] == r[i]);
                assert(es[i].0 == r[i].0);
            }
        }
    } else {
        lemma_set_keys(es.drop_first(), k, v);
        let tail = spec_set(es.drop_first(), k, v);
        assert forall|i: int| 0 <= i < r.len() implies (#[trigger] r[i].0 == k || exists|t: int|
            0 <= t < es.len() && es[t].0 == r[i].0) by {
            if i == 0 {
                assert(r[0] == es[0]);
                assert(es[0].0 == r[0].0);
            } else {
                assert(r[i] == tail[i - 1]);
                if tail[i - 1].0 != k {
                    let t = choose|t: int|
                        0 <= t < es.drop_first().len() && es.drop_first()[t].0 == tail[i - 1].0;
                    assert(es.drop_first()[t] == es[t + 1]);
                    assert(es[t + 1].0 == r[i].0);
                }
            }
        }
    }
}

/// Deleting keeps the entries sorted.
pub proof fn lemma_remove_sorted(es: Seq<(Seq<u8>, Seq<u8>)>, k: Seq<u8>)
    requires
        sorted(es),
    ensures
        sorted(spec_remove(es, k)),
    decreases es.len(),
{
    let r = spec_remove(es, k);
    if es.len() == 0 {
    } else if es[0].0 == k {
        lemma_sorted_drop_first(es);
    } else {
        lemma_sorted_drop_first(es);
        lemma_remove_sorted(es.drop_first(), k);
        lemma_remove_keys(es.drop_first(), k);
        let tail = spec_remove(es.drop_first(), k);
        assert forall|i: int, j: int| 0 <= i < j < r.len() implies lex_less(
            #[trigger] r[i].0,
            #[trigger] r[j].0,
        ) by {
            if i == 0 {
                assert(r[j] == tail[j - 1]);
                let t = choose|t: int|
                    0 <= t < es.drop_first().len() && es.drop_first()[t] == tail[j - 1];
                assert(es.drop_first()[t] == es[t + 1]);
                assert(lex_less(es[0].0, es[t + 1].0));
            } else {
                assert(r[i] == tail[i - 1]);
                assert(r[j] == tail[j - 1]);
            }
        }
    }
}

/// Every entry that survives a delete was there before.
pub proof fn lemma_remove_keys(es: Seq<(Seq<u8>, Seq<u8>)>, k: Seq<u8>)
    ensures
        forall|i: int|
            0 <= i < spec_remove(es, k).len() ==> exists|t: int|
                0 <= t < es.len() && es[t] == #[trigger] spec_remove(es, k)[i],
    decreases es.len(),
{
    let r = spec_remove(es, k);
    if es.len() == 0 {
    } else if es[0].0 == k {
        assert forall|i: int| 0 <= i < r.len() implies exists|t: int|
            0 <= t < es.len() && es[t] == #[trigger] r[i] by {
            assert(es[i + 1] == r[i]);
        }
    } else {
        lemma_remove_keys(es.drop_first(), k);
        let tail = spec_remove(es.drop_first(), k);
        assert forall|i: int| 0 <= i < r.len() implies exists|t: int|
            0 <= t < es.len() && es[t] == #[trigger] r[i] by {
            if i == 0 {
                assert(es[0] == r[0]);
            } else {
                assert(r[i] == tail[i - 1]);
                let t = choose|t: int|
                    0 <= t < es.drop_first().len() && es.drop_first()[t] == tail[i - 1];
                assert(es.drop_first()[t] == es[t + 1]);
                assert(es[t + 1] == r[i]);
            }
        }
    }
}

/// A range scan of a sorted store is itself sorted.
pub proof fn lemma_range_sorted(es: Seq<(Seq<u8>, Seq<u8>)>, from: Seq<u8>, to: Seq<u8>)
    requires
        sorted(es),
    ensures
        sorted(spec_range(es, from, to)),
    decreases es.len(),
{
    if es.len() > 0 {
        lemma_sorted_drop_first(es);
        lemma_range_sorted(es.drop_first(), from, to);
        let r = spec_range(es, from, to);
        let head = if lex_leq(from, es[0].0) && lex_leq(es[0].0, to) {
            seq![es[0]]
        } else {
            Seq::<(Seq<u8>, Seq<u8>)>::empty()
        };
        let tail = spec_range(es.drop_first(), from, to);
        assert forall|i: int, j: int| 0 <= i < j < r.len() implies lex_less(
            (#[trigger] r[i]).0,
            (#[trigger] r[j]).0,
        ) by {
            if i < head.len() {
                assert(r[i] == es[0]);
                assert(r[j] == tail[j - head.len()]);
                lemma_range_in_tail(es.drop_first(), from, to, j - head.len());
                let t = choose|t: int|
                    0 <= t < es.drop_first().len() && es.drop_first()[t] == tail[j - head.len()];
                assert(es.drop_first()[t] == es[t + 1]);
            } else {
                assert(r[i] == tail[i - head.len()]);
                assert(r[j] == tail[j - head.len()]);
            }
        }
    }
}

/// Two sorted entry lists holding the same entries are the same
/// list.
pub proof fn lemma_sorted_members_unique(
    s1: Seq<(Seq<u8>, Seq<u8>)>,
    s2: Seq<(Seq<u8>, Seq<u8>)>,
)
    requires
        sorted(s1),
        sorted(s2),
        forall|p: (Seq<u8>, Seq<u8>)| s1.contains(p) <==> s2.contains(p),
    ensures
        s1 == s2,
    decreases s1.len() + s2.len(),
{
    if s1.len() == 0 && s2.len() == 0 {
        assert(s1 =~= s2);
    } else if s1.len() == 0 {
        assert(s2.contains(s2[0]));
        assert(s1.contains(s2[0]));
    } else if s2.len() == 0 {
        assert(s1.contains(s1[0]));
        assert(s2.contains(s1[0]));
    } else {
        assert(s1.contains(s1[0]));
        assert(s2.contains(s1[0]));
        assert(s2.contains(s2[0]));
        assert(s1.contains(s2[0]));
        let j = choose|j: int| 0 <= j < s2.len() && s2[j] == s1[0];
        let m = choose|m: int| 0 <= m < s1.len() && s1[m] == s2[0];
        if j > 0 {
            assert(lex_less(s2[0].0, s1[0].0));
            if m > 0 {
                assert(lex_less(s1[0].0, s2[0].0));
                lemma_lex_asymmetric(s1[0].0, s2[0].0);
            }
            assert(s1[0] == s2[0]);
            lemma_lex_irreflexive(s1[0].0);
        }
        assert(s1[0] == s2[0]);
        lemma_sorted_drop_first(s1);
        lemma_sorted_drop_first(s2);
        assert forall|p: (Seq<u8>, Seq<u8>)| s1.drop_first().contains(p) <==> s2.drop_first(
        ).contains(p) by {
            lemma_tail_membership(s1, p);
            lemma_tail_membership(s2, p);
        }
        lemma_sorted_members_unique(s1.drop_first(), s2.drop_first());
        assert(s1.len() == s2.len());
        assert forall|i: int| 0 <= i < s1.len() implies s1[i] == s2[i] by {
            if i > 0 {
                assert(s1[i] == s1.drop_first()[i - 1]);
                assert(s2[i] == s2.drop_first()[i - 1]);
            }
        }
        assert(s1 =~= s2);
    }
}

/// An entry is in a sorted list's tail exactly when it is in the list
/// and is not its head.
proof fn lemma_tail_membership(s: Seq<(Seq<u8>, Seq<u8>)>, p: (Seq<u8>, Seq<u8>))
    requires
        sorted(s),
        s.len() > 0,
    ensures
        s.drop_first().contains(p) <==> (s.contains(p) && p != s[0]),
{
    if s.drop_first().contains(p) {
        let i = choose|i: int| 0 <= i < s.drop_first().len() && s.drop_first()[i] == p;
        assert(s[i + 1] == p);
        assert(lex_less(s[0].0, s[i + 1].0));
        lemma_lex_irreflexive(s[0].0);
    }
    if s.contains(p) && p != s[0] {
        let i = choose|i: int| 0 <= i < s.len() && s[i] == p;
        assert(i > 0);
        assert(s.drop_first()[i - 1] == p);
        assert(s.drop_first().contains(p));
    }
}

/// A key that reads back was stored: it sits at some position with
/// its value.
pub proof fn lemma_get_some_index(es: Seq<(Seq<u8>, Seq<u8>)>, k: Seq<u8>)
    requires
        spec_get(es, k) is Some,
    ensures
        exists|i: int|
            0 <= i < es.len() && (#[trigger] es[i]).0 == k && es[i].1 == spec_get(es, k)->Some_0,
    decreases es.len(),
{
    if es[0].0 == k {
        assert(es[0].0 == k && es[0].1 == spec_get(es, k)->Some_0);
    } else {
        lemma_get_some_index(es.drop_first(), k);
        let i = choose|i: int|
            0 <= i < es.drop_first().len() && (#[trigger] es.drop_first()[i]).0 == k
                && es.drop_first()[i].1 == spec_get(es.drop_first(), k)->Some_0;
        assert(es[i + 1].0 == k && es[i + 1].1 == spec_get(es, k)->Some_0);
    }
}

/// A key stored nowhere reads back as nothing.
pub proof fn lemma_get_absent(es: Seq<(Seq<u8>, Seq<u8>)>, k: Seq<u8>)
    requires
        forall|i: int| 0 <= i < es.len() ==> (#[trigger] es[i]).0 != k,
    ensures
        spec_get(es, k) is None,
    decreases es.len(),
{
    if es.len() > 0 {
        assert forall|i: int| 0 <= i < es.drop_first().len() implies (
        #[trigger] es.drop_first()[i]).0 != k by {
            assert(es.drop_first()[i] == es[i + 1]);
        }
        lemma_get_absent(es.drop_first(), k);
    }
}

/// Sorted stores are read-determined: two sorted entry lists under
/// which every key reads the same are the same list.
pub proof fn lemma_sorted_unique(es1: Seq<(Seq<u8>, Seq<u8>)>, es2: Seq<(Seq<u8>, Seq<u8>)>)
    requires
        sorted(es1),
        sorted(es2),
        forall|k: Seq<u8>| #[trigger] spec_get(es1, k) == spec_get(es2, k),
    ensures
        es1 == es2,
    decreases es1.len() + es2.len(),
{
    if es1.len() == 0 && es2.len() == 0 {
        assert(es1 =~= es2);
    } else if es1.len() == 0 {
        assert(spec_get(es2, es2[0].0) == Some(es2[0].1));
        assert(spec_get(es1, es2[0].0) is None);
    } else if es2.len() == 0 {
        assert(spec_get(es1, es1[0].0) == Some(es1[0].1));
        assert(spec_get(es2, es1[0].0) is None);
    } else {
        let k1 = es1[0].0;
        let k2 = es2[0].0;
        assert(spec_get(es1, k1) == Some(es1[0].1));
        assert(spec_get(es2, k2) == Some(es2[0].1));
        lemma_get_some_index(es2, k1);
        let i2 = choose|i: int|
            0 <= i < es2.len() && (#[trigger] es2[i]).0 == k1 && es2[i].1 == spec_get(
                es2,
                k1,
            )->Some_0;
        lemma_get_some_index(es1, k2);
        let i1 = choose|i: int|
            0 <= i < es1.len() && (#[trigger] es1[i]).0 == k2 && es1[i].1 == spec_get(
                es1,
                k2,
            )->Some_0;
        if i2 > 0 {
            assert(lex_less(k2, k1));
        }
        if i1 > 0 {
            assert(lex_less(k1, k2));
        }
        if i1 > 0 && i2 > 0 {
            lemma_lex_asymmetric(k1, k2);
        }
        assert(k1 == k2);
        assert(es1[0] == es2[0]);
        lemma_sorted_drop_first(es1);
        lemma_sorted_drop_first(es2);
        assert forall|k: Seq<u8>| #[trigger] spec_get(es1.drop_first(), k) == spec_get(
            es2.drop_first(),
            k,
        ) by {
            if k == k1 {
                assert forall|i: int| 0 <= i < es1.drop_first().len() implies (
                #[trigger] es1.drop_first()[i]).0 != k by {
                    assert(es1.drop_first()[i] == es1[i + 1]);
                    lemma_lex_irreflexive(k1);
                }
                assert forall|i: int| 0 <= i < es2.drop_first().len() implies (
                #[trigger] es2.drop_first()[i]).0 != k by {
                    assert(es2.drop_first()[i] == es2[i + 1]);
                    lemma_lex_irreflexive(k1);
                }
                lemma_get_absent(es1.drop_first(), k);
                lemma_get_absent(es2.drop_first(), k);
            } else {
                assert(spec_get(es1, k) == spec_get(es1.drop_first(), k));
                assert(spec_get(es2, k) == spec_get(es2.drop_first(), k));
            }
        }
        lemma_sorted_unique(es1.drop_first(), es2.drop_first());
        assert(es1.len() == es2.len());
        assert forall|i: int| 0 <= i < es1.len() implies es1[i] == es2[i] by {
            if i > 0 {
                assert(es1[i] == es1.drop_first()[i - 1]);
                assert(es2[i] == es2.drop_first()[i - 1]);
            }
        }
        assert(es1 =~= es2);
    }
}

/// The ordered in-memory store.
pub struct Kvs {
    pairs: Vec<(Vec<u8>, Vec<u8>)>,
}

impl View for Kvs {
    type V = Seq<(Seq<u8>, Seq<u8>)>;

    closed spec fn view(&self) -> Seq<(Seq<u8>, Seq<u8>)> {
        kv_views(self.pairs@)
    }
}

impl Kvs {
    /// The entries are strictly sorted by key.
    pub open spec fn wf(&self) -> bool {
        sorted(self@)
    }

    /// An empty store.
    pub fn new() -> (r: Kvs)
        ensures
            r@ == Seq::<(Seq<u8>, Seq<u8>)>::empty(),
            r.wf(),
    {
        let r = Kvs { pairs: Vec::new() };
        proof {
            assert(r@ =~= Seq::<(Seq<u8>, Seq<u8>)>::empty());
        }
        r
    }

    /// How many entries the store holds.
    pub fn len(&self) -> (r: usize)
        ensures
            r == self@.len(),
    {
        self.pairs.len()
    }

    /// The key of the `i`-th entry, in stored order.
    pub fn key_at(&self, i: usize) -> (r: Vec<u8>)
        requires
            i < self@.len(),
        ensures
            r@ == self@[i as int].0,
    {
        copy_bytes(&self.pairs[i].0)
    }

    /// The value of the `i`-th entry, in stored order.
    pub fn value_at(&self, i: usize) -> (r: Vec<u8>)
        requires
            i < self@.len(),
        ensures
            r@ == self@[i as int].1,
    {
        copy_bytes(&self.pairs[i].1)
    }

    /// The value stored under `key`, if any.
    pub fn get(&self, key: &Vec<u8>) -> (r: Option<Vec<u8>>)
        ensures
            match r {
                Some(v) => spec_get(self@, key@) == Some(v@),
                None => spec_get(self@, key@) is None,
            },
    {
        let n = self.pairs.len();
        let mut i: usize = 0;
        proof {
            assert(self@.skip(0int) =~= self@);
        }
        while i < n
            invariant
                i <= n,
                n == self.pairs@.len(),
                spec_get(self@, key@) == spec_get(self@.skip(i as int), key@),
            decreases n - i,
        {
            proof {
                assert(self@.skip(i as int)[0] == self@[i as int]);
                assert(self@.skip(i as int).drop_first() =~= self@.skip(i + 1));
            }
            if bytes_eq(&self.pairs[i].0, key) {
                proof {
                    assert(self@[i as int].0 == key@);
                }
                return Some(copy_bytes(&self.pairs[i].1));
            }
            i += 1;
        }
        proof {
            assert(self@.skip(n as int) =~= Seq::<(Seq<u8>, Seq<u8>)>::empty());
        }
        None
    }

    /// The first position whose key is not below `key`.
    fn find_insert_pos(&self, key: &Vec<u8>) -> (i: usize)
        ensures
            i <= self@.len(),
            forall|t: int| 0 <= t < i ==> lex_less(#[trigger] self@[t].0, key@),
            i < self@.len() ==> !lex_less(self@[i as int].0, key@),
    {
        let n = self.pairs.len();
        let mut i: usize = 0;
        while i < n
            invariant
                i <= n,
                n == self.pairs@.len(),
                forall|t: int| 0 <= t < i ==> lex_less(#[trigger] self@[t].0, key@),
            decreases n - i,
        {
            proof {
                assert(self@[i as int] == (self.pairs@[i as int].0@, self.pairs@[i as int].1@));
            }
            if !bytes_lt(&self.pairs[i].0, key) {
                return i;
            }
            i += 1;
        }
        i
    }

    /// Stores `value` under `key`, replacing what was there.
    pub fn set(&mut self, key: Vec<u8>, value: Vec<u8>)
        requires
            old(self).wf(),
        ensures
            final(self).wf(),
            final(self)@ == spec_set(old(self)@, key@, value@),
    {
        let ghost es0 = old(self)@;
        proof {
            lemma_set_sorted(es0, key@, value@);
        }
        let n = self.pairs.len();
        let i = self.find_insert_pos(&key);
        proof {
            lemma_spec_set_at(es0, key@, value@, i as int);
        }
        if i < n {
            let replace = bytes_eq(&self.pairs[i].0, &key);
            proof {
                assert(self@[i as int] == (self.pairs@[i as int].0@, self.pairs@[i as int].1@));
            }
            if replace {
                proof {
                    assert(es0[i as int].0 == key@);
                    assert(es0.len() == n);
                }
                self.pairs[i] = (key, value);
                proof {
                    assert(self@ =~= es0.take(i as int) + seq![(key@, value@)] + es0.skip(
                        i + 1,
                    ));
                    assert(self@ == spec_set(es0, key@, value@));
                }
            } else {
                proof {
                    assert(es0[i as int].0 != key@);
                }
                self.pairs.insert(i, (key, value));
                proof {
                    assert(self@ =~= es0.take(i as int) + seq![(key@, value@)] + es0.skip(
                        i as int,
                    ));
                }
            }
        } else {
            self.pairs.push((key, value));
            proof {
                assert(self@ =~= es0.take(i as int) + seq![(key@, value@)] + es0.skip(i as int));
            }
        }
    }

    /// The position of `key` among the entries, or their count if it
    /// is not stored.
    fn find_key_pos(&self, key: &Vec<u8>) -> (i: usize)
        ensures
            i <= self@.len(),
            forall|t: int| 0 <= t < i ==> (#[trigger] self@[t]).0 != key@,
            i < self@.len() ==> self@[i as int].0 == key@,
    {
        let n = self.pairs.len();
        let mut i: usize = 0;
        while i < n
            invariant
                i <= n,
                n == self.pairs@.len(),
                forall|t: int| 0 <= t < i ==> (#[trigger] self@[t]).0 != key@,
            decreases n - i,
        {
            proof {
                assert(self@[i as int] == (self.pairs@[i as int].0@, self.pairs@[i as int].1@));
            }
            if bytes_eq(&self.pairs[i].0, key) {
                return i;
            }
            i += 1;
        }
        i
    }

    /// Deletes the entry under `key`, if it is there.
    pub fn clear(&mut self, key: &Vec<u8>)
        requires
            old(self).wf(),
        ensures
            final(self).wf(),
            final(self)@ == spec_remove(old(self)@, key@),
    {
        let ghost es0 = old(self)@;
        proof {
            lemma_remove_sorted(es0, key@);
        }
        let n = self.pairs.len();
        let i = self.find_key_pos(key);
        if i < n {
            proof {
                lemma_spec_remove_at(es0, key@, i as int);
            }
            self.pairs.remove(i);
            proof {
                assert(self@ =~= es0.take(i as int) + es0.skip(i + 1));
                assert(self@ == spec_remove(es0, key@));
            }
        } else {
            proof {
                lemma_spec_remove_absent(es0, key@);
                assert(self@ == spec_remove(es0, key@));
            }
        }
    }

    /// The entries with keys in the inclusive range `[from, to]`:
    /// the first `limit` of them in stored order, or, scanning in
    /// reverse, the last `limit` of them in reverse order.
    pub fn get_range(&self, from: &Vec<u8>, to: &Vec<u8>, limit: usize, reverse: bool) -> (r: Vec<
        (Vec<u8>, Vec<u8>),
    >)
        ensures
            ({
                let sel = spec_range(self@, from@, to@);
                let ordered = if reverse {
                    sel.reverse()
                } else {
                    sel
                };
                let m = if limit < ordered.len() {
                    limit as int
                } else {
                    ordered.len() as int
                };
                kv_views(r@) == ordered.take(m)
            }),
    {
        let n = self.pairs.len();
        let mut sel: Vec<(Vec<u8>, Vec<u8>)> = Vec::new();
        let mut i: usize = 0;
        proof {
            assert(self@.take(0int) =~= Seq::<(Seq<u8>, Seq<u8>)>::empty());
            assert(kv_views(sel@) =~= spec_range(self@.take(0int), from@, to@));
        }
        while i < n
            invariant
                i <= n,
                n == self.pairs@.len(),
                kv_views(sel@) == spec_range(self@.take(i as int), from@, to@),
            decreases n - i,
        {
            proof {
                assert(self@[i as int] == (self.pairs@[i as int].0@, self.pairs@[i as int].1@));
                assert(self@.take(i + 1) =~= self@.take(i as int).push(self@[i as int]));
                lemma_spec_range_snoc(self@.take(i as int), self@[i as int], from@, to@);
            }
            if bytes_leq(from, &self.pairs[i].0) && bytes_leq(&self.pairs[i].0, to) {
                sel.push((copy_bytes(&self.pairs[i].0), copy_bytes(&self.pairs[i].1)));
                proof {
                    assert(kv_views(sel@) =~= spec_range(self@.take(i + 1), from@, to@));
                }
            } else {
                proof {
                    assert(kv_views(sel@) =~= spec_range(self@.take(i + 1), from@, to@));
                }
            }
            i += 1;
        }
        proof {
            assert(self@.take(n as int) =~= self@);
        }
        let total = sel.len();
        let m = if limit < total {
            limit
        } else {
            total
        };
        proof {
            assert(kv_views(sel@).len() == sel@.len());
        }
        if !reverse {
            sel.truncate(m);
            proof {
                assert(kv_views(sel@) =~= spec_range(self@, from@, to@).take(m as int));
            }
            sel
        } else {
            let ghost rev = spec_range(self@, from@, to@).reverse();
            let mut out: Vec<(Vec<u8>, Vec<u8>)> = Vec::new();
            let mut j: usize = 0;
            proof {
                assert(kv_views(out@) =~= rev.take(0int));
            }
            while j < m
                invariant
                    j <= m,
                    m <= total,
                    total == sel@.len(),
                    kv_views(sel@) == spec_range(self@, from@, to@),
                    rev == spec_range(self@, from@, to@).reverse(),
                    kv_views(out@) == rev.take(j as int),
                decreases m - j,
            {
                let pk = copy_bytes(&self.pairs_of(&sel, total - 1 - j).0);
                let pv = copy_bytes(&self.pairs_of(&sel, total - 1 - j).1);
                out.push((pk, pv));
                proof {
                    assert(rev[j as int] == kv_views(sel@)[total - 1 - j]);
                    assert(kv_views(sel@)[total - 1 - j] == (
                        sel@[total - 1 - j].0@,
                        sel@[total - 1 - j].1@,
                    ));
                    assert(rev.take(j + 1) =~= rev.take(j as int).push(rev[j as int]));
                    assert(kv_views(out@) =~= rev.take(j + 1));
                }
                j += 1;
            }
            out
        }
    }

    /// A borrow of one pair of a scan result.
    fn pairs_of<'a>(&self, sel: &'a Vec<(Vec<u8>, Vec<u8>)>, i: usize) -> (r: &'a (Vec<u8>, Vec<u8>))
        requires
            i < sel@.len(),
        ensures
            *r == sel@[i as int],
    {
        &sel.as_slice()[i]
    }
}

/// Where the scan stopped tells us what `spec_set` yields: the entries
/// before `i`, then the new pair, then the rest (skipping a replaced
/// entry).
proof fn lemma_spec_set_at(es: Seq<(Seq<u8>, Seq<u8>)>, k: Seq<u8>, v: Seq<u8>, i: int)
    requires
        sorted(es),
        0 <= i <= es.len(),
        forall|t: int| 0 <= t < i ==> lex_less(#[trigger] es[t].0, k),
        i < es.len() ==> !lex_less(es[i].0, k),
    ensures
        spec_set(es, k, v) == (if i < es.len() && es[i].0 == k {
            es.take(i) + seq![(k, v)] + es.skip(i + 1)
        } else {
            es.take(i) + seq![(k, v)] + es.skip(i)
        }),
    decreases es.len(),
{
    if es.len() == 0 {
        assert(spec_set(es, k, v) =~= es.take(0) + seq![(k, v)] + es.skip(0));
    } else if i == 0 {
        lemma_lex_trichotomy(k, es[0].0);
        if es[0].0 == k {
            assert(spec_set(es, k, v) == seq![(k, v)] + es.drop_first());
            assert(es.drop_first() =~= es.skip(1));
            assert(spec_set(es, k, v) =~= es.take(0) + seq![(k, v)] + es.skip(1));
        } else {
            assert(lex_less(k, es[0].0));
            assert(spec_set(es, k, v) =~= es.take(0) + seq![(k, v)] + es.skip(0));
        }
    } else {
        assert(lex_less(es[0].0, k));
        lemma_lex_irreflexive(k);
        if lex_less(k, es[0].0) {
            lemma_lex_asymmetric(es[0].0, k);
        }
        assert(es[0].0 != k);
        lemma_sorted_drop_first(es);
        assert forall|t: int| 0 <= t < i - 1 implies lex_less(
            (#[trigger] es.drop_first()[t]).0,
            k,
        ) by {
            assert(es.drop_first()[t] == es[t + 1]);
        }
        assert(i - 1 < es.drop_first().len() ==> !lex_less(es.drop_first()[i - 1].0, k)) by {
            if i - 1 < es.drop_first().len() {
                assert(es.drop_first()[i - 1] == es[i]);
            }
        }
        lemma_spec_set_at(es.drop_first(), k, v, i - 1);
        if i < es.len() && es[i].0 == k {
            assert(es.drop_first()[i - 1] == es[i]);
            assert(spec_set(es, k, v) == seq![es[0]] + spec_set(es.drop_first(), k, v));
            assert(es.drop_first().take(i - 1) =~= es.take(i).drop_first());
            assert(es.drop_first().skip(i) =~= es.skip(i + 1));
            assert(seq![es[0]] + (es.take(i).drop_first() + seq![(k, v)] + es.skip(i + 1)) =~= es.take(
                i,
            ) + seq![(k, v)] + es.skip(i + 1));
        } else {
            assert(spec_set(es, k, v) == seq![es[0]] + spec_set(es.drop_first(), k, v));
            assert(es.drop_first().take(i - 1) =~= es.take(i).drop_first());
            assert(es.drop_first().skip(i - 1) =~= es.skip(i));
            assert(seq![es[0]] + (es.take(i).drop_first() + seq![(k, v)] + es.skip(i)) =~= es.take(i)
                + seq![(k, v)] + es.skip(i));
        }
    }
}

/// Removing the entry found at `i` drops exactly that entry.
proof fn lemma_spec_remove_at(es: Seq<(Seq<u8>, Seq<u8>)>, k: Seq<u8>, i: int)
    requires
        0 <= i < es.len(),
        es[i].0 == k,
        forall|t: int| 0 <= t < i ==> (#[trigger] es[t]).0 != k,
    ensures
        spec_remove(es, k) == es.take(i) + es.skip(i + 1),
    decreases es.len(),
{
    if i == 0 {
        assert(spec_remove(es, k) == es.drop_first());
        assert(es.drop_first() =~= es.take(0) + es.skip(1));
    } else {
        assert(es[0].0 != k);
        assert forall|t: int| 0 <= t < i - 1 implies (#[trigger] es.drop_first()[t]).0 != k by {
            assert(es.drop_first()[t] == es[t + 1]);
        }
        assert(es.drop_first()[i - 1] == es[i]);
        lemma_spec_remove_at(es.drop_first(), k, i - 1);
        assert(es.drop_first().take(i - 1) =~= es.take(i).drop_first());
        assert(es.drop_first().skip(i) =~= es.skip(i + 1));
        assert(seq![es[0]] + (es.take(i).drop_first() + es.skip(i + 1)) =~= es.take(i) + es.skip(
            i + 1,
        ));
    }
}

/// Removing a key that is not there changes nothing.
proof fn lemma_spec_remove_absent(es: Seq<(Seq<u8>, Seq<u8>)>, k: Seq<u8>)
    requires
        forall|t: int| 0 <= t < es.len() ==> (#[trigger] es[t]).0 != k,
    ensures
        spec_remove(es, k) == es,
    decreases es.len(),
{
    if es.len() > 0 {
        assert forall|t: int| 0 <= t < es.drop_first().len() implies (
        #[trigger] es.drop_first()[t]).0 != k by {
            assert(es.drop_first()[t] == es[t + 1]);
        }
        lemma_spec_remove_absent(es.drop_first(), k);
        assert(seq![es[0]] + es.drop_first() =~= es);
    }
}

/// Extending the scanned prefix extends the selected range at the end.
proof fn lemma_spec_range_snoc(
    es: Seq<(Seq<u8>, Seq<u8>)>,
    p: (Seq<u8>, Seq<u8>),
    from: Seq<u8>,
    to: Seq<u8>,
)
    ensures
        spec_range(es.push(p), from, to) == spec_range(es, from, to) + (if lex_leq(from, p.0)
            && lex_leq(p.0, to) {
            seq![p]
        } else {
            Seq::<(Seq<u8>, Seq<u8>)>::empty()
        }),
    decreases es.len(),
{
    let q = es.push(p);
    let tail = if lex_leq(from, p.0) && lex_leq(p.0, to) {
        seq![p]
    } else {
        Seq::<(Seq<u8>, Seq<u8>)>::empty()
    };
    assert(spec_range(q, from, to) == (if lex_leq(from, q[0].0) && lex_leq(q[0].0, to) {
        seq![q[0]]
    } else {
        Seq::<(Seq<u8>, Seq<u8>)>::empty()
    }) + spec_range(q.drop_first(), from, to));
    if es.len() == 0 {
        assert(q[0] == p);
        assert(q.drop_first() =~= Seq::<(Seq<u8>, Seq<u8>)>::empty());
        assert(spec_range(q.drop_first(), from, to) == Seq::<(Seq<u8>, Seq<u8>)>::empty());
        assert(spec_range(es, from, to) == Seq::<(Seq<u8>, Seq<u8>)>::empty());
        assert(spec_range(q, from, to) =~= spec_range(es, from, to) + tail);
    } else {
        assert(q[0] == es[0]);
        assert(q.drop_first() =~= es.drop_first().push(p));
        lemma_spec_range_snoc(es.drop_first(), p, from, to);
        assert(spec_range(es, from, to) == (if lex_leq(from, es[0].0) && lex_leq(es[0].0, to) {
            seq![es[0]]
        } else {
            Seq::<(Seq<u8>, Seq<u8>)>::empty()
        }) + spec_range(es.drop_first(), from, to));
        assert(spec_range(q, from, to) =~= spec_range(es, from, to) + tail);
    }
}

/// An entry stored under a key inside the range shows up in the range
/// scan.
pub proof fn lemma_range_contains(
    es: Seq<(Seq<u8>, Seq<u8>)>,
    from: Seq<u8>,
    to: Seq<u8>,
    k: Seq<u8>,
    v: Seq<u8>,
)
    requires
        spec_get(es, k) == Some(v),
        lex_leq(from, k),
        lex_leq(k, to),
    ensures
        spec_range(es, from, to).contains((k, v)),
    decreases es.len(),
{
    if es.len() > 0 {
        if es[0].0 == k {
            assert(spec_range(es, from, to)[0] == (k, v));
        } else {
            lemma_range_contains(es.drop_first(), from, to, k, v);
            let tail = spec_range(es.drop_first(), from, to);
            let head = if lex_leq(from, es[0].0) && lex_leq(es[0].0, to) {
                seq![es[0]]
            } else {
                Seq::<(Seq<u8>, Seq<u8>)>::empty()
            };
            let t = choose|t: int| 0 <= t < tail.len() && tail[t] == (k, v);
            assert(spec_range(es, from, to)[head.len() + t] == (k, v));
        }
    }
}

/// Everything a range scan yields is stored: each selected pair reads
/// back from the store, provided the entries are sorted.
pub proof fn lemma_range_sound(
    es: Seq<(Seq<u8>, Seq<u8>)>,
    from: Seq<u8>,
    to: Seq<u8>,
    i: int,
)
    requires
        sorted(es),
        0 <= i < spec_range(es, from, to).len(),
    ensures
        ({
            let p = spec_range(es, from, to)[i];
            spec_get(es, p.0) == Some(p.1) && lex_leq(from, p.0) && lex_leq(p.0, to)
        }),
    decreases es.len(),
{
    if es.len() > 0 {
        let head = if lex_leq(from, es[0].0) && lex_leq(es[0].0, to) {
            seq![es[0]]
        } else {
            Seq::<(Seq<u8>, Seq<u8>)>::empty()
        };
        let tail = spec_range(es.drop_first(), from, to);
        lemma_sorted_drop_first(es);
        if i < head.len() {
            assert(spec_range(es, from, to)[i] == es[0]);
        } else {
            lemma_range_sound(es.drop_first(), from, to, i - head.len());
            let p = tail[i - head.len()];
            assert(spec_range(es, from, to)[i] == p);
            if es[0].0 == p.0 {
                lemma_range_in_tail(es.drop_first(), from, to, i - head.len());
                let t = choose|t: int|
                    0 <= t < es.drop_first().len() && es.drop_first()[t] == p;
                assert(es.drop_first()[t] == es[t + 1]);
                assert(lex_less(es[0].0, es[t + 1].0));
                lemma_lex_irreflexive(es[0].0);
            }
        }
    }
}

/// Every selected pair is one of the scanned entries.
pub proof fn lemma_range_in_tail(es: Seq<(Seq<u8>, Seq<u8>)>, from: Seq<u8>, to: Seq<u8>, i: int)
    requires
        0 <= i < spec_range(es, from, to).len(),
    ensures
        exists|t: int| 0 <= t < es.len() && es[t] == spec_range(es, from, to)[i],
    decreases es.len(),
{
    if es.len() > 0 {
        let head = if lex_leq(from, es[0].0) && lex_leq(es[0].0, to) {
            seq![es[0]]
        } else {
            Seq::<(Seq<u8>, Seq<u8>)>::empty()
        };
        if i < head.len() {
            assert(es[0] == spec_range(es, from, to)[i]);
        } else {
            lemma_range_in_tail(es.drop_first(), from, to, i - head.len());
            let p = spec_range(es.drop_first(), from, to)[i - head.len()];
            assert(spec_range(es, from, to)[i] == p);
            let t = choose|t: int| 0 <= t < es.drop_first().len() && es.drop_first()[t] == p;
            assert(es.drop_first()[t] == es[t + 1]);
        }
    }
}

} // verus!
