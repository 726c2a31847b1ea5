//! Stable ordering by text keys.
use vstd::prelude::*;
use vstd::set_lib::{lemma_int_range, lemma_subset_equality, set_int_range};

verus! {

/// `a` comes no later than `b` in the lexicographic order of their characters, from
/// position `i` on (which is the byte order of `String` comparison).
pub open spec fn lex_le_from(a: Seq<char>, b: Seq<char>, i: int) -> bool
    decreases a.len() - i,
{
    if i < 0 || i >= a.len() {
        true
    } else if i >= b.len() {
        false
    } else if a[i] != b[i] {
        a[i] < b[i]
    } else {
        lex_le_from(a, b, i + 1)
    }
}

/// `a` comes no later than `b` in lexicographic order.
pub open spec fn lex_le(a: Seq<char>, b: Seq<char>) -> bool {
    lex_le_from(a, b, 0)
}

proof fn lemma_lex_refl(a: Seq<char>, i: int)
    requires
        0 <= i,
    ensures
        lex_le_from(a, a, i),
    decreases a.len() - i,
{
    if i < a.len() {
        lemma_lex_refl(a, i + 1);
    }
}

proof fn lemma_lex_total(a: Seq<char>, b: Seq<char>, i: int)
    requires
        0 <= i,
    ensures
        lex_le_from(a, b, i) || lex_le_from(b, a, i),
    decreases a.len() - i,
{
    if i < a.len() && i < b.len() && a[i] == b[i] {
        lemma_lex_total(a, b, i + 1);
    }
}

proof fn lemma_lex_trans(a: Seq<char>, b: Seq<char>, c: Seq<char>, i: int)
    requires
        0 <= i,
        lex_le_from(a, b, i),
        lex_le_from(b, c, i),
    ensures
        lex_le_from(a, c, i),
    decreases a.len() - i,
{
    if i < a.len() && i < b.len() && i < c.len() && a[i] == b[i] && b[i] == c[i] {
        lemma_lex_trans(a, b, c, i + 1);
    }
}

/// Lexicographic order is total.
pub proof fn lemma_lex_le_total(a: Seq<char>, b: Seq<char>)
    ensures
        lex_le(a, b) || lex_le(b, a),
{
    lemma_lex_total(a, b, 0);
}

/// Lexicographic order is transitive.
pub proof fn lemma_lex_le_trans(a: Seq<char>, b: Seq<char>, c: Seq<char>)
    requires
        lex_le(a, b),
        lex_le(b, c),
    ensures
        lex_le(a, c),
{
    lemma_lex_trans(a, b, c, 0);
}

/// Lexicographic order is reflexive.
pub proof fn lemma_lex_le_refl(a: Seq<char>)
    ensures
        lex_le(a, a),
{
    lemma_lex_refl(a, 0);
}

pub fn lex_le_exec(a: &Vec<char>, b: &Vec<char>) -> (r: bool)
    ensures
        r == lex_le(a@, b@),
{
    let mut i: usize = 0;
    while i < a.len()
        invariant
            lex_le(a@, b@) == lex_le_from(a@, b@, i as int),
        decreases a@.len() - i,
    {
        if i >= b.len() {
            return false;
        }
        if a[i] != b[i] {
            return a[i] < b[i];
        }
        i = i + 1;
    }
    true
}

/// `p` lists the indices of `keys` in the order of their keys, indices with equal keys
/// in their own order: a stable sort.
pub open spec fn is_stable_order(keys: Seq<Seq<char>>, p: Seq<usize>) -> bool {
    &&& p.len() == keys.len()
    &&& forall|i: int| 0 <= i < p.len() ==> #[trigger] p[i] < keys.len()
    &&& forall|i: int, j: int| 0 <= i < j < p.len() ==> p[i] != p[j]
    &&& forall|i: int, j: int| 0 <= i < j < p.len() ==> lex_le(keys[p[i] as int], keys[p[j] as int])
    &&& forall|i: int, j: int|
        0 <= i < j < p.len() && keys[p[i] as int] == keys[p[j] as int] ==> p[i] < p[j]
}

/// A stable order lists every index: each index of `keys` appears in `p`.
pub proof fn lemma_stable_order_onto(keys: Seq<Seq<char>>, p: Seq<usize>, j: int)
    requires
        is_stable_order(keys, p),
        0 <= j < keys.len(),
    ensures
        exists|k: int| 0 <= k < p.len() && p[k] as int == j,
{
    let ps = p.map_values(|x: usize| x as int);
    assert(ps.no_duplicates()) by {
        assert forall|a: int, b: int| 0 <= a < ps.len() && 0 <= b < ps.len() && a != b implies ps[a] != ps[b] by {
            if a < b {
                assert(p[a] != p[b]);
            } else {
                assert(p[b] != p[a]);
            }
        }
    }
    ps.unique_seq_to_set();
    lemma_int_range(0, keys.len() as int);
    assert(ps.to_set().subset_of(set_int_range(0, keys.len() as int))) by {
        assert forall|x: int| ps.to_set().contains(x) implies set_int_range(0, keys.len() as int).contains(x) by {
            let k = choose|k: int| 0 <= k < ps.len() && ps[k] == x;
            assert(p[k] < keys.len());
        }
    }
    lemma_subset_equality(ps.to_set(), set_int_range(0, keys.len() as int));
    assert(set_int_range(0, keys.len() as int).contains(j));
    assert(ps.to_set().contains(j));
    let k = choose|k: int| 0 <= k < ps.len() && ps[k] == j;
    assert(p[k] as int == j);
}

/// The views of a vector of character vectors.
pub open spec fn views_of(v: Seq<Vec<char>>) -> Seq<Seq<char>> {
    v.map_values(|x: Vec<char>| x@)
}

/// The indices of `keys` in stable sorted order (an insertion sort).
pub fn stable_order(keys: &Vec<Vec<char>>) -> (r: Vec<usize>)
    ensures
        is_stable_order(views_of(keys@), r@),
{
    let ghost k = views_of(keys@);
    let n = keys.len();
    let mut p: Vec<usize> = Vec::new();
    let mut i: usize = 0;
    while i < n
        invariant
            n == keys@.len() == k.len(),
            k == views_of(keys@),
            i <= n,
            p@.len() == i,
            forall|a: int| 0 <= a < p@.len() ==> #[trigger] p@[a] < i,
            forall|a: int, b: int| 0 <= a < b < p@.len() ==> p@[a] != p@[b],
            forall|a: int, b: int| 0 <= a < b < p@.len() ==> lex_le(k[p@[a] as int], k[p@[b] as int]),
            forall|a: int, b: int|
                0 <= a < b < p@.len() && k[p@[a] as int] == k[p@[b] as int] ==> p@[a] < p@[b],
        decreases n - i,
    {
        let ki = &keys[i];
        assert(ki@ == k[i as int]);
        // the first position whose key is greater than `keys[i]`
        let mut pos: usize = 0;
        while pos < p.len() && lex_le_exec(&keys[p[pos]], ki)
            invariant
                n == keys@.len() == k.len(),
                k == views_of(keys@),
                ki@ == k[i as int],
                i < n,
                p@.len() == i,
                pos <= p@.len(),
                forall|a: int| 0 <= a < p@.len() ==> #[trigger] p@[a] < i,
                forall|a: int| 0 <= a < pos ==> lex_le(#[trigger] k[p@[a] as int], k[i as int]),
            decreases p@.len() - pos,
        {
            assert(keys@[p@[pos as int] as int]@ == k[p@[pos as int] as int]);
            pos = pos + 1;
        }
        let ghost old_p = p@;
        proof {
            if pos < old_p.len() {
                assert(keys@[old_p[pos as int] as int]@ == k[old_p[pos as int] as int]);
                assert(!lex_le(k[old_p[pos as int] as int], k[i as int]));
            }
            // every key from `pos` on is greater than key `i`
            assert forall|a: int| pos <= a < old_p.len() implies !lex_le(#[trigger] k[old_p[a] as int], k[i as int]) by {
                if a > pos && lex_le(k[old_p[a] as int], k[i as int]) {
                    lemma_lex_le_trans(k[old_p[pos as int] as int], k[old_p[a] as int], k[i as int]);
                }
            }
        }
        p.insert(pos, i);
        proof {
            let np = p@;
            assert(np.len() == old_p.len() + 1);
            assert forall|a: int| 0 <= a < np.len() implies #[trigger] np[a] == (if a < pos {
                old_p[a]
            } else if a == pos {
                i
            } else {
                old_p[a - 1]
            }) by {}
            assert forall|a: int| 0 <= a < np.len() implies #[trigger] np[a] < i + 1 by {
                if a != pos {
                    if a < pos {
                        assert(old_p[a] < i);
                    } else {
                        assert(old_p[a - 1] < i);
                    }
                }
            }
            assert forall|a: int, b: int| 0 <= a < b < np.len() implies np[a] != np[b] by {
                if a < pos && b < pos {
                } else if a < pos && b == pos {
                    assert(old_p[a] < i);
                } else if a < pos {
                    assert(np[b] == old_p[b - 1]);
                } else if a == pos {
                    assert(old_p[b - 1] < i);
                } else {
                    assert(np[a] == old_p[a - 1] && np[b] == old_p[b - 1]);
                }
            }
            assert forall|a: int, b: int| 0 <= a < b < np.len() implies lex_le(k[np[a] as int], k[np[b] as int]) by {
                if b == pos {
                    assert(np[a] == old_p[a]);
                } else if a == pos {
                    assert(np[b] == old_p[b - 1]);
                    lemma_lex_le_total(k[i as int], k[old_p[b - 1] as int]);
                } else if a < pos && b < pos {
                } else if a < pos {
                    assert(np[b] == old_p[b - 1]);
                } else {
                    assert(np[a] == old_p[a - 1] && np[b] == old_p[b - 1]);
                }
            }
            assert forall|a: int, b: int|
                0 <= a < b < np.len() && k[np[a] as int] == k[np[b] as int] implies np[a] < np[b] by {
                if b == pos {
                    assert(np[a] == old_p[a]);
                    assert(old_p[a] < i);
                } else if a == pos {
                    assert(np[b] == old_p[b - 1]);
                    lemma_lex_le_refl(k[i as int]);
                } else if a < pos && b < pos {
                } else if a < pos {
                    assert(np[b] == old_p[b - 1]);
                } else {
                    assert(np[a] == old_p[a - 1] && np[b] == old_p[b - 1]);
                }
            }
        }
        i = i + 1;
    }
    p
}

} // verus!
