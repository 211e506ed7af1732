//! Property maps: association lists from property name to value, with
//! first-match lookup semantics and a distinct-keys well-formedness
//! invariant. The diff engine and the patch applier are specified in terms
//! of `assoc_get` over these lists.

use vstd::prelude::*;
use crate::variant::{Variant, opt_vareq, vareq};

verus! {

/// The first value stored under key `k`, comparing keys by their characters.
pub open spec fn assoc_get<T>(s: Seq<(String, T)>, k: Seq<char>) -> Option<T>
    decreases s.len(),
{
    if s.len() == 0 {
        None
    } else if s[0].0@ == k {
        Some(s[0].1)
    } else {
        assoc_get(s.drop_first(), k)
    }
}

/// Keys are pairwise distinct, so each key has at most one entry.
pub open spec fn assoc_wf<T>(s: Seq<(String, T)>) -> bool {
    forall|i: int, j: int| 0 <= i < j < s.len() ==> s[i].0@ != s[j].0@
}

/// Appending an entry leaves every present key bound as before and binds the
/// new entry's key only if it was absent.
pub proof fn lemma_assoc_get_push<T>(s: Seq<(String, T)>, p: (String, T), k: Seq<char>)
    ensures
        assoc_get(s.push(p), k) == (if assoc_get(s, k) is Some {
            assoc_get(s, k)
        } else if p.0@ == k {
            Some(p.1)
        } else {
            None::<T>
        }),
    decreases s.len(),
{
    if s.len() == 0 {
        assert(s.push(p)[0] == p);
        assert(s.push(p).drop_first() =~= Seq::<(String, T)>::empty());
        assert(assoc_get(s.push(p).drop_first(), k) is None);
    } else {
        assert(s.push(p)[0] == s[0]);
        assert(s.push(p).drop_first() =~= s.drop_first().push(p));
        lemma_assoc_get_push(s.drop_first(), p, k);
        assert(assoc_get(s.push(p), k) == (if s[0].0@ == k {
            Some(s[0].1)
        } else {
            assoc_get(s.drop_first().push(p), k)
        }));
    }
}

/// If no entry before position `i` has key `k`, lookup may start at `i`.
pub proof fn lemma_assoc_get_skip<T>(s: Seq<(String, T)>, i: int, k: Seq<char>)
    requires
        0 <= i <= s.len(),
        forall|j: int| 0 <= j < i ==> s[j].0@ != k,
    ensures
        assoc_get(s, k) == assoc_get(s.skip(i), k),
    decreases i,
{
    if i == 0 {
        assert(s.skip(0) =~= s);
    } else {
        assert(s.skip(i) =~= s.drop_first().skip(i - 1));
        lemma_assoc_get_skip(s.drop_first(), i - 1, k);
    }
}

/// A key is bound exactly when some entry carries it, and the bound value is
/// carried by some entry with that key.
pub proof fn lemma_assoc_get_some_index<T>(s: Seq<(String, T)>, k: Seq<char>)
    ensures
        (assoc_get(s, k) is Some) <==> (exists|j: int| 0 <= j < s.len() && s[j].0@ == k),
        assoc_get(s, k) matches Some(v) ==> exists|j: int|
            0 <= j < s.len() && s[j].0@ == k && s[j].1 == v,
    decreases s.len(),
{
    if s.len() > 0 {
        lemma_assoc_get_some_index(s.drop_first(), k);
        if s[0].0@ == k {
            assert(s[0].0@ == k && s[0].1 == s[0].1);
        } else {
            if exists|j: int| 0 <= j < s.len() && s[j].0@ == k {
                let j = choose|j: int| 0 <= j < s.len() && s[j].0@ == k;
                assert(s.drop_first()[j - 1].0@ == k);
            }
            if assoc_get(s, k) is Some {
                let v = assoc_get(s, k)->Some_0;
                let j = choose|j: int|
                    0 <= j < s.drop_first().len() && s.drop_first()[j].0@ == k
                        && s.drop_first()[j].1 == v;
                assert(s[j + 1].0@ == k && s[j + 1].1 == v);
            }
        }
    }
}

/// With distinct keys, the entry at position `i` is what lookup of its key
/// finds.
pub proof fn lemma_assoc_get_at_index<T>(s: Seq<(String, T)>, i: int)
    requires
        assoc_wf(s),
        0 <= i < s.len(),
    ensures
        assoc_get(s, s[i].0@) == Some(s[i].1),
{
    lemma_assoc_get_skip(s, i, s[i].0@);
    assert(s.skip(i)[0] == s[i]);
}

/// Updating the entry at a key's position rebinds that key and no other.
pub proof fn lemma_assoc_get_update<T>(s: Seq<(String, T)>, i: int, p: (String, T), k2: Seq<char>)
    requires
        assoc_wf(s),
        0 <= i < s.len(),
        p.0@ == s[i].0@,
    ensures
        assoc_get(s.update(i, p), k2) == (if k2 == p.0@ {
            Some(p.1)
        } else {
            assoc_get(s, k2)
        }),
    decreases i,
{
    let t = s.update(i, p);
    if i == 0 {
        assert(t[0] == p);
        assert(t.drop_first() =~= s.drop_first());
        if k2 == p.0@ {
        } else {
        }
        if k2 == p.0@ && s[0].0@ != k2 {
        }
        if k2 == p.0@ {
            assert(assoc_get(t, k2) == Some(p.1));
        } else {
            assert(s[0].0@ != k2 || assoc_get(t, k2) == assoc_get(s, k2));
        }
    } else {
        assert(t[0] == s[0]);
        assert(t.drop_first() =~= s.drop_first().update(i - 1, p));
        assert(assoc_wf(s.drop_first()));
        lemma_assoc_get_update(s.drop_first(), i - 1, p, k2);
        if k2 == p.0@ {
            assert(s[0].0@ != k2);
        }
    }
}

/// Removing the entry at a key's position unbinds that key and no other,
/// when keys are distinct.
pub proof fn lemma_assoc_get_remove<T>(s: Seq<(String, T)>, i: int, k2: Seq<char>)
    requires
        assoc_wf(s),
        0 <= i < s.len(),
    ensures
        assoc_get(s.remove(i), k2) == (if k2 == s[i].0@ {
            None::<T>
        } else {
            assoc_get(s, k2)
        }),
    decreases i,
{
    let t = s.remove(i);
    if i == 0 {
        assert(t =~= s.drop_first());
        if k2 == s[0].0@ {
            lemma_assoc_get_some_index(s.drop_first(), k2);
            if assoc_get(s.drop_first(), k2) is Some {
                let j = choose|j: int|
                    0 <= j < s.drop_first().len() && s.drop_first()[j].0@ == k2;
                assert(s[j + 1].0@ == s[0].0@);
                assert(false);
            }
        }
    } else {
        assert(t[0] == s[0]);
        assert(t.drop_first() =~= s.drop_first().remove(i - 1));
        assert(assoc_wf(s.drop_first()));
        lemma_assoc_get_remove(s.drop_first(), i - 1, k2);
    }
}

/// Finds the value stored under `k`, if any.
pub fn assoc_lookup<'a, T>(m: &'a Vec<(String, T)>, k: &String) -> (r: Option<&'a T>)
    ensures
        match r {
            Some(v) => assoc_get(m@, k@) == Some(*v),
            None => assoc_get(m@, k@) is None,
        },
{
    let mut i: usize = 0;
    while i < m.len()
        invariant
            i <= m@.len(),
            forall|j: int| 0 <= j < i ==> m@[j].0@ != k@,
        decreases m@.len() - i,
    {
        let pair = &m[i];
        if pair.0 == *k {
            proof {
                lemma_assoc_get_skip(m@, i as int, k@);
                assert(m@.skip(i as int)[0] == m@[i as int]);
            }
            return Some(&pair.1);
        }
        i = i + 1;
    }
    proof {
        lemma_assoc_get_skip(m@, m@.len() as int, k@);
        assert(m@.skip(m@.len() as int) =~= Seq::<(String, T)>::empty());
    }
    None
}

/// Finds the position of the entry with key `k`, if any.
fn assoc_find_index<T>(m: &Vec<(String, T)>, k: &String) -> (r: Option<usize>)
    ensures
        match r {
            Some(i) => i < m@.len() && m@[i as int].0@ == k@ && forall|j: int|
                0 <= j < i ==> m@[j].0@ != k@,
            None => forall|j: int| 0 <= j < m@.len() ==> m@[j].0@ != k@,
        },
{
    let mut i: usize = 0;
    while i < m.len()
        invariant
            i <= m@.len(),
            forall|j: int| 0 <= j < i ==> m@[j].0@ != k@,
        decreases m@.len() - i,
    {
        let pair = &m[i];
        if pair.0 == *k {
            return Some(i);
        }
        i = i + 1;
    }
    None
}

/// Binds `k` to `v`, replacing any previous binding; all other keys keep
/// their values.
pub fn assoc_set<T>(m: &mut Vec<(String, T)>, k: &String, v: T)
    requires
        assoc_wf(old(m)@),
    ensures
        assoc_wf(final(m)@),
        forall|k2: Seq<char>|
            #![trigger assoc_get(final(m)@, k2)]
            assoc_get(final(m)@, k2) == (if k2 == k@ {
                Some(v)
            } else {
                assoc_get(old(m)@, k2)
            }),
{
    let found = assoc_find_index(m, k);
    match found {
        Some(i) => {
            m[i] = (k.clone(), v);
            proof {
                assert(m@ =~= old(m)@.update(i as int, m@[i as int]));
                assert forall|k2: Seq<char>|
                    #![trigger assoc_get(m@, k2)]
                    assoc_get(m@, k2) == (if k2 == k@ {
                        Some(v)
                    } else {
                        assoc_get(old(m)@, k2)
                    }) by {
                    lemma_assoc_get_update(old(m)@, i as int, m@[i as int], k2);
                }
                assert forall|i2: int, j2: int| 0 <= i2 < j2 < m@.len() implies m@[i2].0@
                    != m@[j2].0@ by {
                    assert(m@[i2].0@ == old(m)@[i2].0@);
                    assert(m@[j2].0@ == old(m)@[j2].0@);
                }
            }
        },
        None => {
            m.push((k.clone(), v));
            proof {
                assert forall|k2: Seq<char>|
                    #![trigger assoc_get(m@, k2)]
                    assoc_get(m@, k2) == (if k2 == k@ {
                        Some(v)
                    } else {
                        assoc_get(old(m)@, k2)
                    }) by {
                    lemma_assoc_get_push(old(m)@, m@.last(), k2);
                    lemma_assoc_get_some_index(old(m)@, k2);
                }
            }
        },
    }
}

/// Unbinds `k`; all other keys keep their values.
pub fn assoc_remove<T>(m: &mut Vec<(String, T)>, k: &String)
    requires
        assoc_wf(old(m)@),
    ensures
        assoc_wf(final(m)@),
        forall|k2: Seq<char>|
            #![trigger assoc_get(final(m)@, k2)]
            assoc_get(final(m)@, k2) == (if k2 == k@ {
                None::<T>
            } else {
                assoc_get(old(m)@, k2)
            }),
{
    let found = assoc_find_index(m, k);
    match found {
        Some(i) => {
            let _ = m.remove(i);
            proof {
                assert forall|k2: Seq<char>|
                    #![trigger assoc_get(m@, k2)]
                    assoc_get(m@, k2) == (if k2 == k@ {
                        None::<T>
                    } else {
                        assoc_get(old(m)@, k2)
                    }) by {
                    lemma_assoc_get_remove(old(m)@, i as int, k2);
                }
                assert forall|i2: int, j2: int| 0 <= i2 < j2 < m@.len() implies m@[i2].0@
                    != m@[j2].0@ by {
                    assert(m@ == old(m)@.remove(i as int));
                }
            }
        },
        None => {
            proof {
                assert forall|k2: Seq<char>|
                    #![trigger assoc_get(m@, k2)]
                    assoc_get(m@, k2) == (if k2 == k@ {
                        None::<T>
                    } else {
                        assoc_get(old(m)@, k2)
                    }) by {
                    lemma_assoc_get_some_index(old(m)@, k2);
                    if k2 == k@ && assoc_get(old(m)@, k2) is Some {
                        let j = choose|j: int|
                            0 <= j < old(m)@.len() && old(m)@[j].0@ == k2;
                        assert(false);
                    }
                }
            }
        },
    }
}

/// Two maps whose entries line up pairwise — equal keys, equivalent values —
/// agree under lookup at every key.
pub proof fn lemma_pairwise_assoc_equiv(a: Seq<(String, Variant)>, b: Seq<(String, Variant)>)
    requires
        a.len() == b.len(),
        forall|i: int| 0 <= i < a.len() ==> (#[trigger] a[i]).0@ == b[i].0@ && vareq(
            a[i].1,
            b[i].1,
        ),
    ensures
        forall|k: Seq<char>| #[trigger] opt_vareq(assoc_get(a, k), assoc_get(b, k)),
    decreases a.len(),
{
    if a.len() == 0 {
    } else {
        assert forall|i: int| 0 <= i < a.drop_first().len() implies (#[trigger] a.drop_first()[
            i
        ]).0@ == b.drop_first()[i].0@ && vareq(a.drop_first()[i].1, b.drop_first()[i].1) by {
            assert(a.drop_first()[i] == a[i + 1]);
            assert(b.drop_first()[i] == b[i + 1]);
            assert((a[i + 1]).0@ == b[i + 1].0@ && vareq(a[i + 1].1, b[i + 1].1));
        }
        lemma_pairwise_assoc_equiv(a.drop_first(), b.drop_first());
        assert forall|k: Seq<char>| #[trigger] opt_vareq(assoc_get(a, k), assoc_get(b, k)) by {
            assert(opt_vareq(assoc_get(a.drop_first(), k), assoc_get(b.drop_first(), k)));
        }
    }
}

/// Decides whether an association list's keys are pairwise distinct: the
/// executable form of `assoc_wf`, for callers whose data arrives from
/// outside the library.
pub fn assoc_keys_distinct<T>(m: &Vec<(String, T)>) -> (r: bool)
    ensures
        r == assoc_wf(m@),
{
    let mut i: usize = 0;
    while i < m.len()
        invariant
            i <= m@.len(),
            forall|i2: int, j2: int|
                0 <= i2 < j2 < m@.len() && i2 < i ==> m@[i2].0@ != m@[j2].0@,
        decreases m@.len() - i,
    {
        let mut j: usize = i + 1;
        while j < m.len()
            invariant
                i < m@.len(),
                i + 1 <= j <= m@.len(),
                forall|j2: int| i < j2 < j ==> m@[i as int].0@ != m@[j2].0@,
            decreases m@.len() - j,
        {
            if m[i].0 == m[j].0 {
                proof {
                    assert(m@[i as int].0@ == m@[j as int].0@);
                    assert(!assoc_wf(m@));
                }
                return false;
            }
            j = j + 1;
        }
        i = i + 1;
    }
    true
}

/// A property map: names bound to values.
pub type PropMap = Vec<(String, Variant)>;

/// A copy of a property map, equal entry for entry.
pub fn copy_props(m: &PropMap) -> (r: PropMap)
    ensures
        r@.len() == m@.len(),
        forall|i: int| 0 <= i < m@.len() ==> r@[i].0@ == m@[i].0@
            && crate::variant::vareq(m@[i].1, r@[i].1),
{
    let mut out: PropMap = Vec::new();
    let mut i: usize = 0;
    while i < m.len()
        invariant
            i <= m@.len(),
            out@.len() == i,
            forall|j: int| 0 <= j < i ==> out@[j].0@ == m@[j].0@
                && crate::variant::vareq(m@[j].1, out@[j].1),
        decreases m@.len() - i,
    {
        let pair = &m[i];
        out.push((pair.0.clone(), pair.1.duplicate()));
        i = i + 1;
    }
    out
}

} // verus!
