use vstd::prelude::*;

verus! {

/// `a` and `b` agree before position `i` and `a` is smaller at `i`.
pub open spec fn lt_at(a: Seq<u8>, b: Seq<u8>, i: int) -> bool {
    &&& 0 <= i < a.len()
    &&& i < b.len()
    &&& a[i] < b[i]
    &&& forall|j: int| 0 <= j < i ==> a[j] == b[j]
}

/// Strict lexicographic order, used on byte strings of one length.
pub open spec fn seq_lt(a: Seq<u8>, b: Seq<u8>) -> bool {
    exists|i: int| #[trigger] lt_at(a, b, i)
}

pub open spec fn seq_le(a: Seq<u8>, b: Seq<u8>) -> bool {
    seq_lt(a, b) || a == b
}

pub proof fn lemma_lt_asymmetric(a: Seq<u8>, b: Seq<u8>)
    requires
        seq_lt(a, b),
    ensures
        !seq_lt(b, a),
        a != b,
{
    let i = choose|i: int| lt_at(a, b, i);
    if seq_lt(b, a) {
        let j = choose|j: int| lt_at(b, a, j);
        if i < j {
            assert(b[i] == a[i]);
        } else if j < i {
            assert(a[j] == b[j]);
        }
    }
}

pub proof fn lemma_lt_transitive(a: Seq<u8>, b: Seq<u8>, c: Seq<u8>)
    requires
        seq_lt(a, b),
        seq_lt(b, c),
    ensures
        seq_lt(a, c),
{
    let i = choose|i: int| lt_at(a, b, i);
    let j = choose|j: int| lt_at(b, c, j);
    if i <= j {
        assert(lt_at(a, c, i));
    } else {
        assert(lt_at(a, c, j));
    }
}

pub proof fn lemma_le_transitive(a: Seq<u8>, b: Seq<u8>, c: Seq<u8>)
    requires
        seq_le(a, b),
        seq_le(b, c),
    ensures
        seq_le(a, c),
{
    if seq_lt(a, b) && seq_lt(b, c) {
        lemma_lt_transitive(a, b, c);
    }
}

proof fn lemma_first_difference(a: Seq<u8>, b: Seq<u8>, i: int)
    requires
        a.len() == b.len(),
        a != b,
        0 <= i <= a.len(),
        forall|j: int| 0 <= j < i ==> a[j] == b[j],
    ensures
        seq_lt(a, b) || seq_lt(b, a),
    decreases a.len() - i,
{
    if i == a.len() {
        assert(a =~= b);
    } else if a[i] == b[i] {
        lemma_first_difference(a, b, i + 1);
    } else if a[i] < b[i] {
        assert(lt_at(a, b, i));
    } else {
        assert(lt_at(b, a, i));
    }
}

/// Any two byte strings of one length are comparable.
pub proof fn lemma_total(a: Seq<u8>, b: Seq<u8>)
    requires
        a.len() == b.len(),
    ensures
        seq_le(a, b) || seq_lt(b, a),
{
    if a != b {
        lemma_first_difference(a, b, 0);
    }
}

pub proof fn lemma_le_antisymmetric(a: Seq<u8>, b: Seq<u8>)
    requires
        seq_le(a, b),
        seq_le(b, a),
    ensures
        a == b,
{
    if seq_lt(a, b) {
        lemma_lt_asymmetric(a, b);
    }
}

/// Strict lexicographic comparison of two byte strings of one length.
pub fn lex_less(a: &[u8], b: &[u8]) -> (r: bool)
    requires
        a@.len() == b@.len(),
    ensures
        r == seq_lt(a@, b@),
{
    let n = a.len();
    let mut i: usize = 0;
    while i < n
        invariant
            n == a@.len(),
            n == b@.len(),
            0 <= i <= n,
            forall|j: int| 0 <= j < i ==> a@[j] == b@[j],
        decreases n - i,
    {
        if a[i] != b[i] {
            if a[i] < b[i] {
                assert(lt_at(a@, b@, i as int));
                return true;
            } else {
                assert(lt_at(b@, a@, i as int));
                proof {
                    lemma_lt_asymmetric(b@, a@);
                }
                return false;
            }
        }
        i = i + 1;
    }
    assert(a@ =~= b@);
    proof {
        if seq_lt(a@, b@) {
            lemma_lt_asymmetric(a@, b@);
        }
    }
    false
}

} // verus!
