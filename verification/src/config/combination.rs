//! The ways to choose some of a number of things.

use itertools::Itertools;
use vstd::prelude::*;

verus! {

/// Whether `choice` chooses `k` of the indices below `n`: `k` indices, each
/// below `n`, each greater than the one before it.
pub open spec fn is_choice(choice: Seq<usize>, n: nat, k: nat) -> bool {
    &&& choice.len() == k
    &&& forall|i: int| 0 <= i < choice.len() ==> choice[i] < n
    &&& forall|i: int, j: int| 0 <= i < j < choice.len() ==> choice[i] < choice[j]
}

/// Whether `a` stands before `b` in a dictionary: at the first place where
/// the two differ, `a` has the smaller index.
pub open spec fn stands_before(a: Seq<usize>, b: Seq<usize>) -> bool {
    exists|at: int|
        0 <= at < a.len() && at < b.len() && a[at] < b[at] && forall|i: int|
            0 <= i < at ==> a[i] == b[i]
}

/// Whether `choices` are the choices of `k` of the indices below `n`: each
/// of them is such a choice, every such choice is among them, and they
/// stand in the order of a dictionary.
pub open spec fn are_the_choices(choices: Seq<Seq<usize>>, n: nat, k: nat) -> bool {
    &&& forall|i: int| 0 <= i < choices.len() ==> is_choice(#[trigger] choices[i], n, k)
    &&& forall|choice: Seq<usize>| is_choice(choice, n, k) ==> choices.contains(choice)
    &&& forall|i: int, j: int|
        0 <= i < j < choices.len() ==> stands_before(choices[i], choices[j])
}

/// The choices of `k` of the indices below `n`, in the order of a
/// dictionary.
pub open spec fn combinations(n: nat, k: nat) -> Seq<Seq<usize>> {
    choose|choices: Seq<Seq<usize>>| #[trigger] are_the_choices(choices, n, k)
}

/// Of two lists of indices at most one stands before the other, and none
/// stands before itself.
proof fn lemma_stands_before_is_asymmetric(a: Seq<usize>, b: Seq<usize>)
    requires
        stands_before(a, b),
    ensures
        a != b,
        !stands_before(b, a),
{
    let p = choose|p: int|
        0 <= p < a.len() && p < b.len() && a[p] < b[p] && forall|i: int|
            0 <= i < p ==> a[i] == b[i];
    if stands_before(b, a) {
        let q = choose|q: int|
            0 <= q < b.len() && q < a.len() && b[q] < a[q] && forall|i: int|
                0 <= i < q ==> b[i] == a[i];
        if p < q {
            assert(b[p] == a[p]);
        } else if q < p {
            assert(a[q] == b[q]);
        }
    }
}

/// There is one list of the choices only.
pub proof fn lemma_choices_are_determined(
    one: Seq<Seq<usize>>,
    other: Seq<Seq<usize>>,
    n: nat,
    k: nat,
)
    requires
        are_the_choices(one, n, k),
        are_the_choices(other, n, k),
    ensures
        one == other,
{
    lemma_ordered_lists_of_the_same_are_equal(one, other);
}

/// Whether `s` stands in the order of a dictionary.
spec fn in_order(s: Seq<Seq<usize>>) -> bool {
    forall|i: int, j: int| 0 <= i < j < s.len() ==> stands_before(s[i], s[j])
}

/// Two lists in the order of a dictionary that hold the same are the same.
proof fn lemma_ordered_lists_of_the_same_are_equal(s: Seq<Seq<usize>>, t: Seq<Seq<usize>>)
    requires
        in_order(s),
        in_order(t),
        forall|x: Seq<usize>| s.contains(x) <==> t.contains(x),
    ensures
        s == t,
    decreases s.len(),
{
    if s.len() == 0 {
        if t.len() > 0 {
            assert(t.contains(t[0]));
        }
        assert(s =~= t);
    } else {
        assert(s.contains(s[0]));
        let j = choose|j: int| 0 <= j < t.len() && t[j] == s[0];
        assert(t.contains(t[0]));
        let i = choose|i: int| 0 <= i < s.len() && s[i] == t[0];
        if j > 0 {
            assert(stands_before(t[0], t[j]));
            lemma_stands_before_is_asymmetric(t[0], t[j]);
            if i > 0 {
                assert(stands_before(s[0], s[i]));
            }
        }
        assert(s[0] == t[0]);
        let s_rest = s.drop_first();
        let t_rest = t.drop_first();
        assert forall|x: Seq<usize>| s_rest.contains(x) <==> t_rest.contains(x) by {
            if s_rest.contains(x) {
                let m = choose|m: int| 0 <= m < s_rest.len() && s_rest[m] == x;
                assert(s[m + 1] == x);
                assert(stands_before(s[0], s[m + 1]));
                lemma_stands_before_is_asymmetric(s[0], x);
                assert(s.contains(x));
                let l = choose|l: int| 0 <= l < t.len() && t[l] == x;
                assert(l > 0);
                assert(t_rest[l - 1] == x);
            }
            if t_rest.contains(x) {
                let m = choose|m: int| 0 <= m < t_rest.len() && t_rest[m] == x;
                assert(t[m + 1] == x);
                assert(stands_before(t[0], t[m + 1]));
                lemma_stands_before_is_asymmetric(t[0], x);
                assert(t.contains(x));
                let l = choose|l: int| 0 <= l < s.len() && s[l] == x;
                assert(l > 0);
                assert(s_rest[l - 1] == x);
            }
        }
        assert forall|a: int, b: int| 0 <= a < b < s_rest.len() implies stands_before(
            s_rest[a],
            s_rest[b],
        ) by {
            assert(stands_before(s[a + 1], s[b + 1]));
        }
        assert forall|a: int, b: int| 0 <= a < b < t_rest.len() implies stands_before(
            t_rest[a],
            t_rest[b],
        ) by {
            assert(stands_before(t[a + 1], t[b + 1]));
        }
        lemma_ordered_lists_of_the_same_are_equal(s_rest, t_rest);
        assert(s =~= seq![s[0]] + s_rest);
        assert(t =~= seq![t[0]] + t_rest);
    }
}

/// Calls `Itertools::combinations` on the range of the indices below `n`.
///
/// The contract claims what the documentation of `combinations` and the
/// source of its iterator show: what comes out are the combinations of `k`
/// of the indices, each with its indices in increasing order, each of them
/// once, and in the order of a dictionary. `n` is kept below the number of
/// bits of a `usize`, so that the number of combinations fits in one, and
/// `k` is at most `n`, so that the indices that the iterator sets up before
/// it looks at the range are no more than the range holds.
#[verifier::external_body]
pub(crate) fn index_combinations(n: usize, k: usize) -> (choices: Vec<Vec<usize>>)
    requires
        n < usize::BITS,
        k <= n,
    ensures
        are_the_choices(choices.deep_view(), n as nat, k as nat),
{
    (0..n).combinations(k).collect()
}

} // verus!
