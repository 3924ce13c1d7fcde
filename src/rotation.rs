use vstd::prelude::*;
use vstd::arithmetic::div_mod::{lemma_add_mod_noop, lemma_mod_bound, lemma_small_mod, lemma_mod_twice};
use crate::order::{lt_at, seq_lt, seq_le, lemma_lt_asymmetric, lemma_lt_transitive, lemma_total};

verus! {

/// `s` rotated left by `k` (any integer, taken modulo the length).
pub open spec fn rotate(s: Seq<u8>, k: int) -> Seq<u8> {
    if s.len() == 0 {
        s
    } else {
        Seq::new(s.len(), |t: int| s[(k + t) % (s.len() as int)])
    }
}

/// The rotation starting at `i` is no larger than any other rotation.
pub open spec fn is_min_rotation(s: Seq<u8>, i: int) -> bool {
    &&& 0 <= i < s.len()
    &&& forall|k: int| 0 <= k < s.len() ==> seq_le(#[trigger] rotate(s, i), rotate(s, k))
}

/// `i` is the leftmost start of a lexicographically least rotation of `s`.
pub open spec fn is_lmsr_index(s: Seq<u8>, i: int) -> bool {
    &&& is_min_rotation(s, i)
    &&& forall|j: int| 0 <= j < i ==> !#[trigger] is_min_rotation(s, j)
}

/// `m` is a rotation of `s` and is no larger than any rotation of `s`.
pub open spec fn is_least_rotation(s: Seq<u8>, m: Seq<u8>) -> bool {
    &&& exists|k: int| 0 <= k < s.len() && m == #[trigger] rotate(s, k)
    &&& forall|k: int| 0 <= k < s.len() ==> seq_le(m, #[trigger] rotate(s, k))
}

/// Some rotation is strictly smaller than the one starting at `y`.
pub open spec fn dominated(s: Seq<u8>, y: int) -> bool {
    exists|z: int| seq_lt(#[trigger] rotate(s, z), rotate(s, y))
}

pub proof fn lemma_rotate_mod(s: Seq<u8>, k: int)
    requires
        s.len() > 0,
    ensures
        rotate(s, k) == rotate(s, k % (s.len() as int)),
{
    let n = s.len() as int;
    assert forall|t: int| 0 <= t < n implies rotate(s, k)[t] == rotate(s, k % n)[t] by {
        lemma_add_mod_noop(k, t, n);
        lemma_add_mod_noop(k % n, t, n);
        lemma_mod_twice(k, n);
        lemma_small_mod(t as nat, n as nat);
    }
    assert(rotate(s, k) =~= rotate(s, k % n));
}

pub proof fn lemma_rotate_rotate(s: Seq<u8>, a: int, b: int)
    requires
        s.len() > 0,
    ensures
        rotate(rotate(s, a), b) == rotate(s, a + b),
{
    let n = s.len() as int;
    assert forall|t: int| 0 <= t < n implies rotate(rotate(s, a), b)[t] == rotate(s, a + b)[t] by {
        lemma_mod_bound(b + t, n);
        lemma_add_mod_noop(a, b + t, n);
        lemma_add_mod_noop(a, (b + t) % n, n);
        lemma_mod_twice(b + t, n);
        assert(a + (b + t) == (a + b) + t);
    }
    assert(rotate(rotate(s, a), b) =~= rotate(s, a + b));
}

/// A rotation that some rotation is strictly below is not least.
proof fn lemma_dominated_not_min(s: Seq<u8>, y: int)
    requires
        s.len() > 0,
        dominated(s, y),
    ensures
        !is_min_rotation(s, y),
{
    let n = s.len() as int;
    let z = choose|z: int| seq_lt(#[trigger] rotate(s, z), rotate(s, y));
    lemma_rotate_mod(s, z);
    lemma_mod_bound(z, n);
    if is_min_rotation(s, y) {
        assert(seq_le(rotate(s, y), rotate(s, z % n)));
        if seq_lt(rotate(s, y), rotate(s, z)) {
            lemma_lt_asymmetric(rotate(s, y), rotate(s, z));
        } else {
            lemma_lt_asymmetric(rotate(s, z), rotate(s, y));
        }
    }
}

proof fn lemma_min_among_first(s: Seq<u8>, m: int) -> (i: int)
    requires
        0 < m <= s.len(),
    ensures
        0 <= i < m,
        forall|k: int| 0 <= k < m ==> seq_le(rotate(s, i), #[trigger] rotate(s, k)),
    decreases m,
{
    if m == 1 {
        0
    } else {
        let i0 = lemma_min_among_first(s, m - 1);
        let last = m - 1;
        lemma_total(rotate(s, i0), rotate(s, last));
        if seq_le(rotate(s, i0), rotate(s, last)) {
            i0
        } else {
            assert forall|k: int| 0 <= k < m implies seq_le(
                rotate(s, last),
                #[trigger] rotate(s, k),
            ) by {
                if k < last {
                    if rotate(s, i0) != rotate(s, k) {
                        lemma_lt_transitive(rotate(s, last), rotate(s, i0), rotate(s, k));
                    }
                }
            }
            last
        }
    }
}

/// Every non-empty byte string has a least rotation.
pub proof fn lemma_min_rotation_exists(s: Seq<u8>) -> (i: int)
    requires
        s.len() > 0,
    ensures
        is_min_rotation(s, i),
{
    lemma_min_among_first(s, s.len() as int)
}

/// A leftmost least rotation exists at or before any least rotation.
proof fn lemma_leftmost(s: Seq<u8>, i: int) -> (j: int)
    requires
        is_min_rotation(s, i),
    ensures
        is_lmsr_index(s, j),
        j <= i,
    decreases i,
{
    if exists|j: int| 0 <= j < i && #[trigger] is_min_rotation(s, j) {
        let j = choose|j: int| 0 <= j < i && #[trigger] is_min_rotation(s, j);
        lemma_leftmost(s, j)
    } else {
        i
    }
}

/// The leftmost least rotation is unique.
pub proof fn lemma_lmsr_index_unique(s: Seq<u8>, i: int, j: int)
    requires
        is_lmsr_index(s, i),
        is_lmsr_index(s, j),
    ensures
        i == j,
{
}

/// Two least rotations are equal.
pub proof fn lemma_least_rotation_unique(s: Seq<u8>, a: Seq<u8>, b: Seq<u8>)
    requires
        is_least_rotation(s, a),
        is_least_rotation(s, b),
    ensures
        a == b,
{
    let ka = choose|k: int| 0 <= k < s.len() && a == #[trigger] rotate(s, k);
    let kb = choose|k: int| 0 <= k < s.len() && b == #[trigger] rotate(s, k);
    assert(seq_le(a, rotate(s, kb)));
    assert(seq_le(b, rotate(s, ka)));
    if seq_lt(a, b) {
        lemma_lt_asymmetric(a, b);
    }
}

/// Equal prefixes of length `r` at `l` and `p` followed by a larger byte at `l`:
/// each rotation in the run from `l` is above the matching one from `p`.
proof fn lemma_run_dominates(s: Seq<u8>, l: int, p: int, r: int, y: int)
    requires
        s.len() > 0,
        l <= y <= l + r,
        0 <= r < s.len(),
        forall|u: int|
            0 <= u < r ==> #[trigger] s[(l + u) % (s.len() as int)] == s[(p + u) % (
            s.len() as int)],
        s[(l + r) % (s.len() as int)] > s[(p + r) % (s.len() as int)],
    ensures
        dominated(s, y),
{
    let n = s.len() as int;
    let t = y - l;
    let a = rotate(s, p + t);
    let b = rotate(s, l + t);
    let i = r - t;
    assert forall|j: int| 0 <= j < i implies a[j] == b[j] by {
        assert(s[(l + (t + j)) % n] == s[(p + (t + j)) % n]);
        assert(l + (t + j) == l + t + j);
        assert(p + (t + j) == p + t + j);
    }
    assert(l + t + i == l + r);
    assert(p + t + i == p + r);
    assert(lt_at(a, b, i));
    assert(seq_lt(rotate(s, p + t), rotate(s, l + t)));
    assert(l + t == y);
}

/// If the rotations at `a` and `a + d` agree, the string has period `d`.
proof fn lemma_period(s: Seq<u8>, a: int, d: int, y: int)
    requires
        s.len() > 0,
        0 <= a,
        forall|u: int|
            0 <= u < s.len() ==> #[trigger] s[(a + u) % (s.len() as int)] == s[(a + d + u) % (
            s.len() as int)],
    ensures
        rotate(s, y) == rotate(s, y + d),
{
    let n = s.len() as int;
    assert forall|t: int| 0 <= t < n implies rotate(s, y)[t] == rotate(s, y + d)[t] by {
        let q = y + t;
        let u = (q - a) % n;
        lemma_mod_bound(q - a, n);
        assert(s[(a + u) % n] == s[(a + d + u) % n]);
        lemma_add_mod_noop(a, q - a, n);
        lemma_add_mod_noop(a, u, n);
        lemma_mod_twice(q - a, n);
        assert(a + (q - a) == q);
        lemma_add_mod_noop(a + d, q - a, n);
        lemma_add_mod_noop(a + d, u, n);
        assert(a + d + (q - a) == y + d + t);
    }
    assert(rotate(s, y) =~= rotate(s, y + d));
}

proof fn lemma_reduce_by_period(s: Seq<u8>, lo: int, hi: int, z: int)
    requires
        s.len() > 0,
        0 <= lo < hi,
        lo <= z,
        forall|y: int| #[trigger] rotate(s, y) == rotate(s, y + (hi - lo)),
    ensures
        exists|w: int| lo <= w < hi && rotate(s, w) == #[trigger] rotate(s, z),
    decreases z - lo,
{
    if z < hi {
        assert(rotate(s, z) == rotate(s, z));
    } else {
        let d = hi - lo;
        assert(rotate(s, z - d) == rotate(s, z - d + d));
        assert(z - d + d == z);
        lemma_reduce_by_period(s, lo, hi, z - d);
    }
}

/// What the scan of `lmsr_index` has established when it stops.
proof fn lemma_scan_result(s: Seq<u8>, l: int, p: int, r: int)
    requires
        s.len() > 0,
        l != p,
        0 <= l <= s.len(),
        0 <= p <= s.len(),
        0 <= r <= s.len(),
        !(l < s.len() && p < s.len() && r < s.len()),
        r > 0 ==> l < s.len() && p < s.len(),
        forall|u: int|
            0 <= u < r ==> #[trigger] s[(l + u) % (s.len() as int)] == s[(p + u) % (
            s.len() as int)],
        forall|y: int| 0 <= y < l && y < s.len() && y != p ==> #[trigger] dominated(s, y),
        forall|y: int| 0 <= y < p && y < s.len() && y != l ==> #[trigger] dominated(s, y),
    ensures
        is_lmsr_index(s, if l < p { l } else { p }),
{
    let ni = s.len() as int;
    let z = lemma_min_rotation_exists(s);
    let lo = if l < p { l } else { p };
    let hi = if l < p { p } else { l };
    if z != lo && dominated(s, z) {
        lemma_dominated_not_min(s, z);
    }
    if r >= ni {
        // The rotations at `l` and `p` agree everywhere: the string is periodic.
        assert forall|u: int| 0 <= u < ni implies #[trigger] s[(lo + u) % ni] == s[(lo + (hi
            - lo) + u) % ni] by {
            assert(s[(l + u) % ni] == s[(p + u) % ni]);
            assert(lo + (hi - lo) == hi);
        }
        assert forall|y: int| #[trigger] rotate(s, y) == rotate(s, y + (hi - lo)) by {
            lemma_period(s, lo, hi - lo, y);
        }
        if z < lo {
            assert(dominated(s, z));
        }
        lemma_reduce_by_period(s, lo, hi, z);
        let w = choose|w: int| lo <= w < hi && rotate(s, w) == #[trigger] rotate(s, z);
        if w != lo {
            if dominated(s, w) {
                let v = choose|v: int| seq_lt(#[trigger] rotate(s, v), rotate(s, w));
                lemma_rotate_mod(s, v);
                lemma_mod_bound(v, ni);
                assert(seq_le(rotate(s, z), rotate(s, v % ni)));
                if seq_lt(rotate(s, z), rotate(s, v)) {
                    lemma_lt_transitive(rotate(s, z), rotate(s, v), rotate(s, w));
                }
                lemma_lt_asymmetric(rotate(s, v), rotate(s, w));
            }
            assert(rotate(s, lo) == rotate(s, lo + (hi - lo)));
            assert(lo + (hi - lo) == hi);
        }
        assert(rotate(s, lo) == rotate(s, z));
        assert(is_min_rotation(s, lo));
    }
    assert forall|j: int| 0 <= j < lo implies !#[trigger] is_min_rotation(s, j) by {
        assert(dominated(s, j));
        lemma_dominated_not_min(s, j);
    }
}

/// Position `base + off` of the doubled string, as an index of `x`.
fn wrap_index(base: usize, off: usize, n: usize) -> (r: usize)
    requires
        base < n,
        off < n,
    ensures
        r as int == (base + off) % (n as int),
        r < n,
{
    if off < n - base {
        proof {
            lemma_small_mod((base + off) as nat, n as nat);
        }
        base + off
    } else {
        proof {
            assert((base + off) as int == n + (base + off - n));
            vstd::arithmetic::div_mod::lemma_mod_add_multiples_vanish((base + off - n) as int, n as int);
            lemma_small_mod((base + off - n) as nat, n as nat);
        }
        off - (n - base)
    }
}

/// Index of the lexicographically minimal rotation of `x`, the leftmost one on ties.
///
/// A linear scan keeps a candidate start `l` and a lookahead start `p`, and
/// extends the run `r` on which both agree. A smaller byte at the lookahead
/// restarts the candidate past the run; a larger one moves the lookahead past
/// the run. Every start that is passed over is beaten by another rotation.
pub fn lmsr_index(x: &[u8]) -> (res: usize)
    requires
        x@.len() > 0,
    ensures
        is_lmsr_index(x@, res as int),
{
    let n = x.len();
    let ghost s = x@;
    let ghost ni = n as int;
    let mut l: usize = 0;
    let mut p: usize = 1;
    let mut r: usize = 0;
    while l < n && p < n && r < n
        invariant
            s == x@,
            n == x@.len(),
            ni == n,
            n > 0,
            l != p,
            l <= n,
            p <= n,
            r <= n,
            r > 0 ==> l < n && p < n,
            forall|u: int| 0 <= u < r ==> #[trigger] s[(l + u) % ni] == s[(p + u) % ni],
            forall|y: int|
                0 <= y < l && y < n && y != p ==> #[trigger] dominated(s, y),
            forall|y: int|
                0 <= y < p && y < n && y != l ==> #[trigger] dominated(s, y),
        decreases (if l < n && p < n { 3 * n - l - p - r } else { 0 }),
    {
        let a = x[wrap_index(l, r, n)];
        let b = x[wrap_index(p, r, n)];
        if a == b {
            r = r + 1;
        } else if a > b {
            let ghost old_l = l as int;
            let ghost rr = r as int;
            assert forall|y: int| old_l <= y <= old_l + rr implies #[trigger] dominated(s, y) by {
                lemma_run_dominates(s, old_l, p as int, rr, y);
            }
            l = if r < n - l - 1 {
                l + r + 1
            } else {
                n
            };
            if l == p {
                l = l + 1;
            }
            r = 0;
            assert forall|y: int| 0 <= y < p && y < n && y != l implies #[trigger] dominated(
                s,
                y,
            ) by {
                if y >= old_l {
                    assert(dominated(s, y));
                }
            }
            assert forall|y: int| 0 <= y < l && y < n && y != p implies #[trigger] dominated(
                s,
                y,
            ) by {
                if y >= old_l {
                    assert(dominated(s, y));
                }
            }
        } else {
            let ghost old_p = p as int;
            let ghost rr = r as int;
            assert forall|y: int| old_p <= y <= old_p + rr implies #[trigger] dominated(s, y) by {
                lemma_run_dominates(s, old_p, l as int, rr, y);
            }
            p = if r < n - p - 1 {
                p + r + 1
            } else {
                n
            };
            if p == l {
                p = p + 1;
            }
            r = 0;
            assert forall|y: int| 0 <= y < p && y < n && y != l implies #[trigger] dominated(
                s,
                y,
            ) by {
                if y >= old_p {
                    assert(dominated(s, y));
                }
            }
            assert forall|y: int| 0 <= y < l && y < n && y != p implies #[trigger] dominated(
                s,
                y,
            ) by {
                if y >= old_p {
                    assert(dominated(s, y));
                }
            }
        }
    }
    proof {
        lemma_scan_result(s, l as int, p as int, r as int);
    }
    if l < p {
        l
    } else {
        p
    }
}

/// The lexicographically minimal rotation of `s`.
pub fn lmsr(s: &[u8]) -> (r: Vec<u8>)
    requires
        s@.len() > 0,
    ensures
        is_least_rotation(s@, r@),
        r@ == rotate(s@, lmsr_pos(s@)),
{
    let n = s.len();
    let i = lmsr_index(s);
    let mut buf: Vec<u8> = Vec::with_capacity(n);
    let mut j: usize = i;
    while j < n
        invariant
            i <= j <= n,
            n == s@.len(),
            buf@ == s@.subrange(i as int, j as int),
        decreases n - j,
    {
        buf.push(s[j]);
        j = j + 1;
        assert(buf@ =~= s@.subrange(i as int, j as int));
    }
    let mut j: usize = 0;
    while j < i
        invariant
            0 <= j <= i,
            i < n,
            n == s@.len(),
            buf@ == s@.subrange(i as int, n as int) + s@.subrange(0, j as int),
        decreases i - j,
    {
        buf.push(s[j]);
        j = j + 1;
        assert(buf@ =~= s@.subrange(i as int, n as int) + s@.subrange(0, j as int));
    }
    proof {
        let ni = n as int;
        assert forall|t: int| 0 <= t < ni implies buf@[t] == rotate(s@, i as int)[t] by {
            if t < ni - i {
                lemma_small_mod((i + t) as nat, n as nat);
            } else {
                vstd::arithmetic::div_mod::lemma_mod_add_multiples_vanish(i + t - ni, ni);
                lemma_small_mod((i + t - ni) as nat, n as nat);
                assert(ni + (i + t - ni) == i + t);
            }
        }
        assert(buf@ =~= rotate(s@, i as int));
        lemma_lmsr_pos(s@, i as int);
    }
    buf
}

/// The leftmost least rotation start of a non-empty string.
pub open spec fn lmsr_pos(s: Seq<u8>) -> int {
    choose|i: int| is_lmsr_index(s, i)
}

/// `lmsr_pos` names the leftmost least rotation, which is a least rotation.
pub proof fn lemma_lmsr_pos(s: Seq<u8>, i: int)
    requires
        is_lmsr_index(s, i),
    ensures
        lmsr_pos(s) == i,
        is_least_rotation(s, rotate(s, i)),
{
    let j = lmsr_pos(s);
    lemma_lmsr_index_unique(s, i, j);
}

/// Every non-empty string has a least rotation, at `lmsr_pos`.
pub proof fn lemma_lmsr_pos_exists(s: Seq<u8>)
    requires
        s.len() > 0,
    ensures
        is_lmsr_index(s, lmsr_pos(s)),
        is_least_rotation(s, rotate(s, lmsr_pos(s))),
{
    let z = lemma_min_rotation_exists(s);
    let j = lemma_leftmost(s, z);
    lemma_lmsr_pos(s, j);
}

} // verus!
