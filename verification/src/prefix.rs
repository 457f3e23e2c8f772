//! The longest common prefix of two sequences: every lowest-common-
//! ancestor variant over explicit paths reduces to it, keeping the last
//! entry on which two traversal paths agree.

use vstd::prelude::*;

verus! {

/// Length of the longest common prefix of two sequences.
pub open spec fn lcp_len<A>(p: Seq<A>, q: Seq<A>) -> nat
    decreases p.len(),
{
    if p.len() == 0 || q.len() == 0 || p.first() != q.first() {
        0
    } else {
        1 + lcp_len(p.drop_first(), q.drop_first())
    }
}

/// The longest common prefix fits inside both sequences, does not depend
/// on their order, and is a region of agreement: in particular the entry
/// a prefix scan settles on is the same whichever way round the two
/// sequences are handed in.
pub proof fn lemma_lcp_props<A>(p: Seq<A>, q: Seq<A>)
    ensures
        lcp_len(p, q) <= p.len(),
        lcp_len(p, q) <= q.len(),
        lcp_len(p, q) == lcp_len(q, p),
        forall|j: int| 0 <= j < lcp_len(p, q) ==> p[j] == q[j],
    decreases p.len(),
{
    if !(p.len() == 0 || q.len() == 0 || p.first() != q.first()) {
        lemma_lcp_props(p.drop_first(), q.drop_first());
        assert forall|j: int| 0 <= j < lcp_len(p, q) implies p[j] == q[j] by {
            if j > 0 {
                assert(p.drop_first()[j - 1] == q.drop_first()[j - 1]);
            }
        }
    }
}

/// `lcp_len` is exactly the first point of disagreement.
pub proof fn lemma_lcp_char<A>(p: Seq<A>, q: Seq<A>, k: nat)
    requires
        k <= p.len(),
        k <= q.len(),
        forall|j: int| 0 <= j < k ==> p[j] == q[j],
        k == p.len() || k == q.len() || p[k as int] != q[k as int],
    ensures
        lcp_len(p, q) == k,
    decreases k,
{
    if k == 0 {
    } else {
        assert(p[0] == q[0]);
        let p2 = p.drop_first();
        let q2 = q.drop_first();
        assert forall|j: int| 0 <= j < k - 1 implies p2[j] == q2[j] by {
            assert(p[j + 1] == q[j + 1]);
        }
        if k < p.len() && k < q.len() {
            assert(p2[k - 1] != q2[k - 1]);
        }
        lemma_lcp_char(p2, q2, (k - 1) as nat);
    }
}

} // verus!
