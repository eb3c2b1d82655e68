//! Keys by which parameters and tests are matched: lookup of the last entry with a key,
//! and the sorted list of the keys of two runs.
//!
//! The keys are texts (names and expressions). With a `String` key, the specifications that
//! vstd gives `HashMap` and `HashSet` let nothing about lookups be proved, so the entries
//! stay in their `Vec` and are searched: `last_index_in` finds the entry that a map filled
//! in order would keep (the last one with the key), and `sorted_union` builds directly the
//! sorted list, each key once, that collecting the keys of both runs into a set and
//! sorting it gives.
use vstd::prelude::*;
use crate::text::{lex_lt, str_eq, str_lt};

verus! {

/// The texts of a sequence of strings.
pub open spec fn views(v: Seq<String>) -> Seq<Seq<char>> {
    v.map_values(|s: String| s@)
}

/// Every key comes before the keys after it: sorted, each key once.
pub open spec fn strictly_sorted(ks: Seq<Seq<char>>) -> bool {
    forall|i: int, j: int| 0 <= i < j < ks.len() ==> lex_lt(#[trigger] ks[i], #[trigger] ks[j])
}

/// The position of the last occurrence of `n` in `keys`; a map filled from `keys` in order
/// keeps the entry of that position.
pub open spec fn last_index(keys: Seq<Seq<char>>, n: Seq<char>) -> Option<int>
    decreases keys.len(),
{
    if keys.len() == 0 {
        None
    } else if keys.last() == n {
        Some(keys.len() - 1)
    } else {
        last_index(keys.drop_last(), n)
    }
}

pub proof fn lemma_last_index(keys: Seq<Seq<char>>, n: Seq<char>)
    ensures
        match last_index(keys, n) {
            Some(i) => 0 <= i < keys.len() && keys[i] == n && forall|j: int|
                i < j < keys.len() ==> keys[j] != n,
            None => !keys.contains(n),
        },
    decreases keys.len(),
{
    if keys.len() > 0 && keys.last() != n {
        lemma_last_index(keys.drop_last(), n);
        if let Some(i) = last_index(keys, n) {
            assert(keys[i] == keys.drop_last()[i]);
            assert forall|j: int| i < j < keys.len() implies keys[j] != n by {
                if j < keys.len() - 1 {
                    assert(keys.drop_last()[j] == keys[j]);
                }
            }
        }
        if keys.contains(n) {
            let j = choose|j: int| 0 <= j < keys.len() && keys[j] == n;
            assert(keys.drop_last()[j] == n);
        }
    }
}

/// Where `n` occurs last in `keys`.
pub fn last_index_in(keys: &Vec<String>, n: &str) -> (r: Option<usize>)
    ensures
        match r {
            Some(i) => last_index(views(keys@), n@) == Some(i as int),
            None => last_index(views(keys@), n@) is None,
        },
{
    let mut i = keys.len();
    assert(views(keys@).take(i as int) =~= views(keys@));
    while i > 0
        invariant
            i <= keys@.len(),
            last_index(views(keys@), n@) == last_index(views(keys@).take(i as int), n@),
        decreases i,
    {
        let ghost t = views(keys@).take(i as int);
        assert(t.last() == keys@[i - 1]@);
        if str_eq(keys[i - 1].as_str(), n) {
            return Some(i - 1);
        }
        assert(t.drop_last() =~= views(keys@).take(i - 1));
        i = i - 1;
    }
    None
}

/// Whether `n` is among `keys`.
pub fn contains_key(keys: &[String], n: &str) -> (r: bool)
    ensures
        r == views(keys@).contains(n@),
{
    let mut i: usize = 0;
    while i < keys.len()
        invariant
            i <= keys@.len(),
            forall|j: int| 0 <= j < i ==> keys@[j]@ != n@,
        decreases keys.len() - i,
    {
        if str_eq(keys[i].as_str(), n) {
            assert(views(keys@)[i as int] == n@);
            return true;
        }
        i = i + 1;
    }
    assert forall|j: int| 0 <= j < views(keys@).len() implies views(keys@)[j] != n@ by {
        assert(views(keys@)[j] == keys@[j]@);
    }
    false
}

/// Puts `k` into its place in the sorted `ks`, unless it is there already.
fn insert_key(ks: &mut Vec<String>, k: &String)
    requires
        strictly_sorted(views(old(ks)@)),
    ensures
        strictly_sorted(views(final(ks)@)),
        forall|n: Seq<char>| #[trigger]
            views(final(ks)@).contains(n) <==> (views(old(ks)@).contains(n) || n == k@),
{
    let mut p: usize = 0;
    while p < ks.len() && str_lt(ks[p].as_str(), k.as_str())
        invariant
            p <= ks@.len(),
            ks@ == old(ks)@,
            forall|i: int| 0 <= i < p ==> lex_lt(#[trigger] ks@[i]@, k@),
        decreases ks.len() - p,
    {
        p = p + 1;
    }
    let ghost old_v = views(ks@);
    if p < ks.len() && str_eq(ks[p].as_str(), k.as_str()) {
        assert(old_v[p as int] == k@);
        return;
    }
    proof {
        if p < ks@.len() {
            crate::text::lemma_lex_total(ks@[p as int]@, k@);
        }
    }
    ks.insert(p, k.clone());
    let ghost new_v = views(ks@);
    assert(new_v =~= old_v.insert(p as int, k@));
    assert forall|i: int, j: int| 0 <= i < j < new_v.len() implies lex_lt(
        #[trigger] new_v[i],
        #[trigger] new_v[j],
    ) by {
        if j < p {
            assert(new_v[i] == old_v[i] && new_v[j] == old_v[j]);
        } else if j == p {
            assert(new_v[i] == old_v[i]);
        } else if i < p {
            assert(new_v[i] == old_v[i] && new_v[j] == old_v[j - 1]);
            assert(lex_lt(old_v[i], k@));
            assert(lex_lt(k@, old_v[p as int]));
            if j - 1 > p {
                assert(lex_lt(old_v[p as int], old_v[j - 1]));
                crate::text::lemma_lex_transitive(k@, old_v[p as int], old_v[j - 1]);
            }
            crate::text::lemma_lex_transitive(old_v[i], k@, old_v[j - 1]);
        } else if i == p {
            assert(new_v[j] == old_v[j - 1]);
            if j - 1 > p {
                assert(lex_lt(old_v[p as int], old_v[j - 1]));
                crate::text::lemma_lex_transitive(k@, old_v[p as int], old_v[j - 1]);
            }
        } else {
            assert(new_v[i] == old_v[i - 1] && new_v[j] == old_v[j - 1]);
        }
    }
    assert forall|n: Seq<char>| #[trigger] new_v.contains(n) <==> (old_v.contains(n) || n == k@) by {
        if new_v.contains(n) {
            let i = choose|i: int| 0 <= i < new_v.len() && new_v[i] == n;
            if i < p {
                assert(old_v[i] == n);
            } else if i > p {
                assert(old_v[i - 1] == n);
            }
        }
        if old_v.contains(n) {
            let i = choose|i: int| 0 <= i < old_v.len() && old_v[i] == n;
            if i < p {
                assert(new_v[i] == n);
            } else {
                assert(new_v[i + 1] == n);
            }
        }
        if n == k@ {
            assert(new_v[p as int] == n);
        }
    }
}

/// The keys of `a` and of `b`, sorted, each once.
pub fn sorted_union(a: &Vec<String>, b: &Vec<String>) -> (r: Vec<String>)
    ensures
        strictly_sorted(views(r@)),
        forall|n: Seq<char>| #[trigger]
            views(r@).contains(n) <==> (views(a@).contains(n) || views(b@).contains(n)),
{
    let mut r: Vec<String> = Vec::new();
    let mut i: usize = 0;
    while i < a.len()
        invariant
            i <= a@.len(),
            strictly_sorted(views(r@)),
            forall|n: Seq<char>| #[trigger]
                views(r@).contains(n) <==> views(a@).take(i as int).contains(n),
        decreases a.len() - i,
    {
        insert_key(&mut r, &a[i]);
        proof {
            assert(views(a@).take(i + 1) =~= views(a@).take(i as int).push(a@[i as int]@));
            assert forall|n: Seq<char>| #[trigger]
                views(a@).take(i + 1).contains(n) <==> (views(a@).take(i as int).contains(n)
                    || n == a@[i as int]@) by {
                let t = views(a@).take(i + 1);
                if t.contains(n) {
                    let j = choose|j: int| 0 <= j < t.len() && t[j] == n;
                    if j < i {
                        assert(views(a@).take(i as int)[j] == n);
                    }
                }
                if views(a@).take(i as int).contains(n) {
                    let j = choose|j: int| 0 <= j < i && views(a@).take(i as int)[j] == n;
                    assert(t[j] == n);
                }
                if n == a@[i as int]@ {
                    assert(t[i as int] == n);
                }
            }
        }
        i = i + 1;
    }
    assert(views(a@).take(i as int) =~= views(a@));
    let mut j: usize = 0;
    while j < b.len()
        invariant
            j <= b@.len(),
            strictly_sorted(views(r@)),
            forall|n: Seq<char>| #[trigger]
                views(r@).contains(n) <==> (views(a@).contains(n) || views(b@).take(
                    j as int,
                ).contains(n)),
        decreases b.len() - j,
    {
        insert_key(&mut r, &b[j]);
        proof {
            assert forall|n: Seq<char>| #[trigger]
                views(b@).take(j + 1).contains(n) <==> (views(b@).take(j as int).contains(n)
                    || n == b@[j as int]@) by {
                let t = views(b@).take(j + 1);
                if t.contains(n) {
                    let k = choose|k: int| 0 <= k < t.len() && t[k] == n;
                    if k < j {
                        assert(views(b@).take(j as int)[k] == n);
                    }
                }
                if views(b@).take(j as int).contains(n) {
                    let k = choose|k: int| 0 <= k < j && views(b@).take(j as int)[k] == n;
                    assert(t[k] == n);
                }
                if n == b@[j as int]@ {
                    assert(t[j as int] == n);
                }
            }
        }
        j = j + 1;
    }
    assert(views(b@).take(j as int) =~= views(b@));
    r
}

} // verus!
