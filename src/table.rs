//! Tables keyed by byte strings, held as vectors of entries in strictly
//! ascending key order: the canonical order of the serialized form.
use vstd::prelude::*;

use crate::bytes::{
    bytes_eq, bytes_lt, lemma_lex_irreflexive, lemma_lex_total,
    lemma_lex_transitive, lex_lt,
};

verus! {

broadcast use vstd::seq::group_seq_axioms;

/// Keys strictly ascending.
pub open spec fn ascending<V>(s: Seq<(Vec<u8>, V)>) -> bool {
    forall|i: int| 0 <= i < s.len() - 1 ==> #[trigger] lex_lt(s[i].0@, s[i + 1].0@)
}

/// The value stored under `k`, if any.
pub open spec fn lookup<V>(s: Seq<(Vec<u8>, V)>, k: Seq<u8>) -> Option<V>
    decreases s.len(),
{
    if s.len() == 0 {
        None
    } else if s[0].0@ == k {
        Some(s[0].1)
    } else {
        lookup(s.drop_first(), k)
    }
}

pub proof fn lemma_ascending_lt<V>(s: Seq<(Vec<u8>, V)>, i: int, j: int)
    requires
        ascending(s),
        0 <= i < j < s.len(),
    ensures
        lex_lt(s[i].0@, s[j].0@),
    decreases j - i,
{
    if j == i + 1 {
        assert(lex_lt(s[i].0@, s[i + 1].0@));
    } else {
        lemma_ascending_lt(s, i, j - 1);
        let k = j - 1;
        assert(lex_lt(s[k].0@, s[k + 1].0@));
        lemma_lex_transitive(s[i].0@, s[j - 1].0@, s[j].0@);
    }
}

pub proof fn lemma_lookup_absent<V>(s: Seq<(Vec<u8>, V)>, k: Seq<u8>)
    requires
        forall|j: int| 0 <= j < s.len() ==> (#[trigger] s[j]).0@ != k,
    ensures
        lookup(s, k) is None,
    decreases s.len(),
{
    if s.len() > 0 {
        assert(s[0].0@ != k);
        assert forall|j: int| 0 <= j < s.drop_first().len() implies (#[trigger] s.drop_first()[j]).0@
            != k by {
            assert(s.drop_first()[j] == s[j + 1]);
        }
        lemma_lookup_absent(s.drop_first(), k);
    }
}

pub proof fn lemma_lookup_at<V>(s: Seq<(Vec<u8>, V)>, i: int)
    requires
        0 <= i < s.len(),
        forall|j: int| 0 <= j < i ==> (#[trigger] s[j]).0@ != s[i].0@,
    ensures
        lookup(s, s[i].0@) == Some(s[i].1),
    decreases i,
{
    if i > 0 {
        assert(s[0].0@ != s[i].0@);
        assert(s.drop_first()[i - 1] == s[i]);
        assert forall|j: int| 0 <= j < i - 1 implies (#[trigger] s.drop_first()[j]).0@ != s[i].0@ by {
            assert(s.drop_first()[j] == s[j + 1]);
        }
        lemma_lookup_at(s.drop_first(), i - 1);
    }
}

pub proof fn lemma_lookup_ascending<V>(s: Seq<(Vec<u8>, V)>, i: int)
    requires
        ascending(s),
        0 <= i < s.len(),
    ensures
        lookup(s, s[i].0@) == Some(s[i].1),
{
    assert forall|j: int| 0 <= j < i implies (#[trigger] s[j]).0@ != s[i].0@ by {
        lemma_ascending_lt(s, j, i);
        lemma_lex_irreflexive(s[i].0@);
    }
    lemma_lookup_at(s, i);
}

pub proof fn lemma_lookup_insert_other<V>(s: Seq<(Vec<u8>, V)>, i: int, e: (Vec<u8>, V), k: Seq<u8>)
    requires
        0 <= i <= s.len(),
        e.0@ != k,
    ensures
        lookup(s.insert(i, e), k) == lookup(s, k),
    decreases i,
{
    if i > 0 {
        assert(s.insert(i, e).drop_first() =~= s.drop_first().insert(i - 1, e));
        lemma_lookup_insert_other(s.drop_first(), i - 1, e, k);
    } else {
        assert(s.insert(0, e).drop_first() =~= s);
    }
}

pub proof fn lemma_lookup_remove_other<V>(s: Seq<(Vec<u8>, V)>, i: int, k: Seq<u8>)
    requires
        0 <= i < s.len(),
        s[i].0@ != k,
    ensures
        lookup(s.remove(i), k) == lookup(s, k),
    decreases i,
{
    if i > 0 {
        assert(s.remove(i).drop_first() =~= s.drop_first().remove(i - 1));
        lemma_lookup_remove_other(s.drop_first(), i - 1, k);
    } else {
        assert(s.remove(0) =~= s.drop_first());
    }
}

/// Where `k` stands, or would stand, in an ascending table.
pub fn find_slot<V>(s: &Vec<(Vec<u8>, V)>, k: &[u8]) -> (r: (usize, bool))
    requires
        ascending(s@),
    ensures
        r.0 <= s@.len(),
        forall|j: int| 0 <= j < r.0 ==> lex_lt((#[trigger] s@[j]).0@, k@),
        r.1 ==> r.0 < s@.len() && s@[r.0 as int].0@ == k@,
        !r.1 ==> (r.0 < s@.len() ==> lex_lt(k@, s@[r.0 as int].0@)),
{
    let mut i: usize = 0;
    while i < s.len() && bytes_lt(s[i].0.as_slice(), k)
        invariant
            0 <= i <= s@.len(),
            forall|j: int| 0 <= j < i ==> lex_lt((#[trigger] s@[j]).0@, k@),
        decreases s@.len() - i,
    {
        i = i + 1;
    }
    if i < s.len() {
        if bytes_eq(s[i].0.as_slice(), k) {
            return (i, true);
        }
        proof {
            lemma_lex_total(s@[i as int].0@, k@);
        }
    }
    (i, false)
}

/// The value stored under `k`.
pub fn table_get<'a, V>(s: &'a Vec<(Vec<u8>, V)>, k: &[u8]) -> (r: Option<&'a V>)
    requires
        ascending(s@),
    ensures
        r matches Some(v) ==> lookup(s@, k@) == Some(*v),
        r is None ==> lookup(s@, k@) is None,
{
    let (i, found) = find_slot(s, k);
    if found {
        proof {
            lemma_lookup_ascending(s@, i as int);
        }
        Some(&s[i].1)
    } else {
        proof {
            assert forall|j: int| 0 <= j < s@.len() implies (#[trigger] s@[j]).0@ != k@ by {
                if j < i {
                    lemma_lex_irreflexive(k@);
                } else {
                    if j > i {
                        lemma_ascending_lt(s@, i as int, j);
                        lemma_lex_transitive(k@, s@[i as int].0@, s@[j].0@);
                    }
                    lemma_lex_irreflexive(k@);
                }
            }
            lemma_lookup_absent(s@, k@);
        }
        None
    }
}

/// Stores `v` under `k`, replacing what was there.
pub fn table_set<V>(s: &mut Vec<(Vec<u8>, V)>, k: Vec<u8>, v: V)
    requires
        ascending(old(s)@),
    ensures
        ascending(final(s)@),
        lookup(final(s)@, k@) == Some(v),
        forall|k2: Seq<u8>| k2 != k@ ==> lookup(final(s)@, k2) == lookup(old(s)@, k2),
{
    let (i, found) = find_slot(s, k.as_slice());
    let ghost kv = k@;
    let ghost s0 = s@;
    if found {
        let ghost e = (k, v);
        s.remove(i);
        proof {
            assert forall|k2: Seq<u8>| k2 != kv implies lookup(s@, k2) == lookup(s0, k2) by {
                lemma_lookup_remove_other(s0, i as int, k2);
            }
        }
        let ghost s1 = s@;
        s.insert(i, (k, v));
        proof {
            assert(s@ =~= s0.update(i as int, s@[i as int]));
            assert forall|k2: Seq<u8>| k2 != kv implies lookup(s@, k2) == lookup(s0, k2) by {
                lemma_lookup_insert_other(s1, i as int, s@[i as int], k2);
            }
        }
    } else {
        s.insert(i, (k, v));
        proof {
            assert forall|k2: Seq<u8>| k2 != kv implies lookup(s@, k2) == lookup(s0, k2) by {
                lemma_lookup_insert_other(s0, i as int, s@[i as int], k2);
            }
        }
    }
    proof {
        assert forall|j: int| 0 <= j < s@.len() - 1 implies #[trigger] lex_lt(s@[j].0@, s@[j + 1].0@) by {
            if j + 1 < i {
                assert(s@[j] == s0[j] && s@[j + 1] == s0[j + 1]);
                assert(lex_lt(s0[j].0@, s0[j + 1].0@));
            } else if j + 1 == i {
                assert(s@[j] == s0[j]);
            } else if j == i {
                if found {
                    assert(s@[j + 1] == s0[j + 1]);
                    assert(lex_lt(s0[j].0@, s0[j + 1].0@));
                } else {
                    assert(s@[j + 1] == s0[j]);
                }
            } else {
                if found {
                    assert(s@[j] == s0[j] && s@[j + 1] == s0[j + 1]);
                    assert(lex_lt(s0[j].0@, s0[j + 1].0@));
                } else {
                    assert(s@[j] == s0[j - 1] && s@[j + 1] == s0[j]);
                    let m = j - 1;
                    assert(lex_lt(s0[m].0@, s0[m + 1].0@));
                }
            }
        }
        lemma_lookup_ascending(s@, i as int);
    }
}

/// Removes what is stored under `k`, if anything.
pub fn table_remove<V>(s: &mut Vec<(Vec<u8>, V)>, k: &[u8])
    requires
        ascending(old(s)@),
    ensures
        ascending(final(s)@),
        lookup(final(s)@, k@) is None,
        forall|k2: Seq<u8>| k2 != k@ ==> lookup(final(s)@, k2) == lookup(old(s)@, k2),
{
    let (i, found) = find_slot(s, k);
    let ghost s0 = s@;
    if found {
        s.remove(i);
        proof {
            assert forall|k2: Seq<u8>| k2 != k@ implies lookup(s@, k2) == lookup(s0, k2) by {
                lemma_lookup_remove_other(s0, i as int, k2);
            }
            assert forall|j: int| 0 <= j < s@.len() - 1 implies #[trigger] lex_lt(
                s@[j].0@,
                s@[j + 1].0@,
            ) by {
                if j + 1 < i {
                    assert(lex_lt(s0[j].0@, s0[j + 1].0@));
                } else if j + 1 == i {
                    lemma_ascending_lt(s0, j, j + 2);
                } else {
                    let m = j + 1;
                    assert(lex_lt(s0[m].0@, s0[m + 1].0@));
                }
            }
            assert forall|j: int| 0 <= j < s@.len() implies (#[trigger] s@[j]).0@ != k@ by {
                if j < i {
                    lemma_ascending_lt(s0, j, i as int);
                    lemma_lex_irreflexive(k@);
                } else {
                    lemma_ascending_lt(s0, i as int, j + 1);
                    lemma_lex_irreflexive(k@);
                }
            }
            lemma_lookup_absent(s@, k@);
        }
    } else {
        proof {
            assert forall|j: int| 0 <= j < s@.len() implies (#[trigger] s@[j]).0@ != k@ by {
                if j < i {
                    lemma_lex_irreflexive(k@);
                } else {
                    if j > i {
                        lemma_ascending_lt(s@, i as int, j);
                        lemma_lex_transitive(k@, s@[i as int].0@, s@[j].0@);
                    }
                    lemma_lex_irreflexive(k@);
                }
            }
            lemma_lookup_absent(s@, k@);
        }
    }
}

pub proof fn lemma_lookup_in<V>(s: Seq<(Vec<u8>, V)>, k: Seq<u8>)
    ensures
        lookup(s, k) matches Some(v) ==> exists|i: int| 0 <= i < s.len() && (#[trigger] s[i]).1 == v,
    decreases s.len(),
{
    if s.len() > 0 && s[0].0@ != k {
        lemma_lookup_in(s.drop_first(), k);
        if let Some(v) = lookup(s.drop_first(), k) {
            let i = choose|i: int| 0 <= i < s.drop_first().len() && (#[trigger] s.drop_first()[i]).1 == v;
            assert(s[i + 1] == s.drop_first()[i]);
        }
    } else if s.len() > 0 {
        assert(s[0].1 == s[0].1);
    }
}

/// In an ascending table, a property of every value found by key is a
/// property of every entry.
pub proof fn lemma_all_values<V>(s: Seq<(Vec<u8>, V)>, p: spec_fn(V) -> bool)
    requires
        ascending(s),
        forall|k: Seq<u8>| #[trigger] lookup(s, k) matches Some(v) ==> p(v),
    ensures
        forall|i: int| 0 <= i < s.len() ==> p(#[trigger] s[i].1),
{
    assert forall|i: int| 0 <= i < s.len() implies p(#[trigger] s[i].1) by {
        lemma_lookup_ascending(s, i);
        assert(lookup(s, s[i].0@) matches Some(v) ==> p(v));
    }
}

} // verus!
