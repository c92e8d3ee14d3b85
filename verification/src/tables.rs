//! Lists kept in step with a table: facts about building a list, one entry
//! at a time, that holds each entry of another list once.
use vstd::prelude::*;

verus! {

/// No two entries of `s` share a key.
pub open spec fn distinct_keys<T>(s: Seq<T>, key: spec_fn(T) -> Seq<char>) -> bool {
    forall|i: int, j: int|
        0 <= i < s.len() && 0 <= j < s.len() && i != j ==> key(s[i]) != key(s[j])
}

/// Every entry of `s` is one of the first `n` entries of `t`.
pub open spec fn drawn_from<T>(s: Seq<T>, t: Seq<T>, n: int) -> bool {
    forall|a: int| 0 <= a < s.len() ==> exists|b: int| 0 <= b < n && #[trigger] s[a] == t[b]
}

/// Each of the first `n` entries of `t` is in `s`.
pub open spec fn holds_all<T>(s: Seq<T>, t: Seq<T>, n: int) -> bool {
    forall|b: int| 0 <= b < n ==> exists|a: int| 0 <= a < s.len() && s[a] == #[trigger] t[b]
}

/// Inserting the next entry of `t` anywhere into a list that holds each of
/// the earlier entries once keeps it so.
#[verifier::spinoff_prover]
#[verifier::rlimit(40)]
pub proof fn lemma_insert_tracks<T>(
    s0: Seq<T>,
    t: Seq<T>,
    i: int,
    p: int,
    key: spec_fn(T) -> Seq<char>,
)
    requires
        0 <= i < t.len(),
        0 <= p <= s0.len(),
        distinct_keys(t, key),
        distinct_keys(s0, key),
        drawn_from(s0, t, i),
        holds_all(s0, t, i),
    ensures
        distinct_keys(s0.insert(p, t[i]), key),
        drawn_from(s0.insert(p, t[i]), t, i + 1),
        holds_all(s0.insert(p, t[i]), t, i + 1),
{
    let s1 = s0.insert(p, t[i]);
    assert forall|a: int| 0 <= a < s1.len() implies exists|b: int|
        0 <= b < i + 1 && #[trigger] s1[a] == t[b] by {
        if a < p {
            assert(s1[a] == s0[a]);
        } else if a == p {
            assert(s1[a] == t[i]);
        } else {
            assert(s1[a] == s0[a - 1]);
        }
    }
    assert forall|b: int| 0 <= b < i + 1 implies exists|a: int|
        0 <= a < s1.len() && s1[a] == #[trigger] t[b] by {
        if b == i {
            assert(s1[p] == t[b]);
        } else {
            let a = choose|a: int| 0 <= a < s0.len() && s0[a] == t[b];
            if a < p {
                assert(s1[a] == t[b]);
            } else {
                assert(s1[a + 1] == t[b]);
            }
        }
    }
    assert forall|a: int| 0 <= a < s0.len() implies key(s0[a]) != key(t[i]) by {
        let b = choose|b: int| 0 <= b < i && #[trigger] s0[a] == t[b];
        assert(key(t[b]) != key(t[i]));
    }
    assert forall|x: int, y: int|
        0 <= x < s1.len() && 0 <= y < s1.len() && x != y implies key(s1[x]) != key(s1[y]) by {
        let x0 = if x < p { x } else { x - 1 };
        let y0 = if y < p { y } else { y - 1 };
        if x == p {
            assert(s1[y] == s0[y0]);
        } else if y == p {
            assert(s1[x] == s0[x0]);
        } else {
            assert(s1[x] == s0[x0] && s1[y] == s0[y0]);
        }
    }
}

} // verus!
