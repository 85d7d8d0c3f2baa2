//! Keys, modifiers and key inputs, and the rule by which a configured key
//! input is matched against an observed one.
//!
//! A key input is a key together with a set of modifiers. A rule's key input
//! matches an observed one when the keys agree and the rule's modifiers are all
//! held; the modifiers that are held beyond those are handed back, so that they
//! can be put onto whatever the rule maps to.

use crate::laws::{before, clone_law, copy_of, equality_law, order_law, precedes, same};
use std::collections::BTreeSet;
use vstd::prelude::*;

verus! {

broadcast use vstd::std_specs::btree::group_btree_axioms;

/// A physical key, identified by a raw platform value.
#[derive(PartialEq, Eq, Clone, Debug, PartialOrd, Ord)]
pub struct Key<K> {
    value: K,
}

impl<K> View for Key<K> {
    type V = K;

    closed spec fn view(&self) -> K {
        self.value
    }
}

impl<K: Clone> Key<K> {
    pub fn new(value: K) -> (key: Self)
        ensures
            key@ == value,
    {
        Self { value: value }
    }

    pub fn raw_value(&self) -> (value: K)
        ensures
            clone_law::<K>() ==> value == self@,
    {
        copy_of(&self.value)
    }
}

/// A single modifier, identified by a raw platform value.
#[derive(PartialEq, Eq, PartialOrd, Ord, Clone, Debug)]
pub struct Modifier<M> {
    value: M,
}

impl<M> View for Modifier<M> {
    type V = M;

    closed spec fn view(&self) -> M {
        self.value
    }
}

impl<M: Clone> Modifier<M> {
    pub fn new(value: M) -> (modifier: Self)
        ensures
            modifier@ == value,
    {
        Self { value: value }
    }

    pub fn raw_value(&self) -> (value: M)
        ensures
            clone_law::<M>() ==> value == self@,
    {
        copy_of(&self.value)
    }
}

/// The raw values of a list of modifiers, in the order of the list.
pub open spec fn raw_values<M>(modifiers: Seq<Modifier<M>>) -> Seq<M> {
    modifiers.map_values(|m: Modifier<M>| m@)
}

/// `s` ascends strictly in the order of `M`.
pub open spec fn ascending<M: Ord>(s: Seq<M>) -> bool {
    forall|i: int, j: int| 0 <= i < j < s.len() ==> precedes(s[i], s[j])
}

/// A set of modifiers.
#[derive(Clone, Debug, PartialEq, Eq, PartialOrd, Ord)]
pub struct Modifiers<M> {
    value: BTreeSet<M>,
}

impl<M> View for Modifiers<M> {
    type V = Set<M>;

    closed spec fn view(&self) -> Set<M> {
        self.value@
    }
}

/// What is left of a set of modifiers once another set is taken out of it.
enum ModifiersSub<M> {
    IsNotSubset,
    SubResult(Modifiers<M>),
}

impl<M: Ord + Clone> Modifiers<M> {
    /// The set of the modifiers in the list; one that occurs twice counts once.
    pub fn new(modifiers: Vec<Modifier<M>>) -> (set: Self)
        ensures
            order_law::<M>() ==> set@ == raw_values(modifiers@).to_set(),
    {
        let ghost all = raw_values(modifiers@);
        let mut rest = modifiers;
        let mut value: BTreeSet<M> = BTreeSet::new();
        while rest.len() > 0
            invariant
                order_law::<M>() ==> value@.union(raw_values(rest@).to_set()) == all.to_set(),
            decreases rest.len(),
        {
            let ghost before_pop = raw_values(rest@);
            let modifier = rest.pop().unwrap();
            proof {
                assert(before_pop =~= raw_values(rest@).push(modifier@));
                raw_values(rest@).lemma_push_to_set_commute(modifier@);
            }
            value.insert(modifier.value);
            assert(order_law::<M>() ==> value@.union(raw_values(rest@).to_set()) =~= all.to_set());
        }
        assert(order_law::<M>() ==> value@ =~= all.to_set());
        Self { value: value }
    }

    /// The members of the set, from the least to the greatest.
    fn members(&self) -> (members: Vec<&M>)
        requires
            order_law::<M>(),
        ensures
            members@.unref().to_set() == self@,
            ascending(members@.unref()),
    {
        let mut members: Vec<&M> = Vec::new();
        for member in it: self.value.iter()
            invariant
                order_law::<M>(),
                members@ == it.seq().take(it.index()),
                it.seq().unref().to_set() == self.value@,
                vstd::std_specs::btree::increasing_seq(it.seq()),
                it.index() == it.seq().len() ==> members@ == it.seq(),
        {
            members.push(member);
            assert(it.seq().take(it.index() + 1) =~= it.seq().take(it.index()).push(member));
            assert(it.seq().take(it.seq().len() as int) =~= it.seq());
        }
        proof {
            let s = members@;
            assert forall|i: int, j: int| 0 <= i < j < s.unref().len() implies precedes(
                s.unref()[i],
                s.unref()[j],
            ) by {
                assert(precedes(s[i], s[j]));
            }
        }
        members
    }

    /// Whether `member` is in the set.
    fn has(&self, member: &M) -> (found: bool)
        requires
            order_law::<M>(),
        ensures
            found == self@.contains(*member),
    {
        self.value.contains(member)
    }

    /// Takes `target` out of `self`, provided that all of `target` is in `self`.
    fn subtract_modifiers(&self, target: &Self) -> (sub: ModifiersSub<M>)
        requires
            order_law::<M>(),
            clone_law::<M>(),
        ensures
            match sub {
                ModifiersSub::IsNotSubset => !target@.subset_of(self@),
                ModifiersSub::SubResult(rest) => target@.subset_of(self@) && rest@
                    == self@.difference(target@),
            },
    {
        let wanted = target.members();
        let mut i: usize = 0;
        while i < wanted.len()
            invariant
                order_law::<M>(),
                i <= wanted.len(),
                wanted@.unref().to_set() == target@,
                forall|k: int| 0 <= k < i ==> self@.contains(#[trigger] wanted@.unref()[k]),
            decreases wanted.len() - i,
        {
            if !self.has(wanted[i]) {
                proof {
                    assert(wanted@.unref().contains(wanted@.unref()[i as int]));
                    assert(target@.contains(*wanted@[i as int]));
                }
                return ModifiersSub::IsNotSubset;
            }
            i += 1;
        }
        proof {
            assert forall|m: M| target@.contains(m) implies self@.contains(m) by {
                assert(wanted@.unref().contains(m));
                let k = choose|k: int| 0 <= k < wanted@.unref().len() && wanted@.unref()[k] == m;
                assert(self@.contains(wanted@.unref()[k]));
            }
        }
        let held = self.members();
        let mut rest: BTreeSet<M> = BTreeSet::new();
        let mut j: usize = 0;
        while j < held.len()
            invariant
                order_law::<M>(),
                clone_law::<M>(),
                j <= held.len(),
                held@.unref().to_set() == self@,
                rest@ == held@.unref().take(j as int).to_set().difference(target@),
            decreases held.len() - j,
        {
            proof {
                let seen = held@.unref().take(j as int);
                assert(held@.unref().take(j + 1) =~= seen.push(*held@[j as int]));
                seen.lemma_push_to_set_commute(*held@[j as int]);
            }
            if !target.has(held[j]) {
                rest.insert(copy_of(held[j]));
            }
            j += 1;
            assert(rest@ =~= held@.unref().take(j as int).to_set().difference(target@));
        }
        proof {
            assert(held@.unref().take(j as int) =~= held@.unref());
        }
        ModifiersSub::SubResult(Self { value: rest })
    }

    /// The union of the two sets.
    pub fn merge(&self, target: &Self) -> (merged: Self)
        requires
            order_law::<M>(),
            clone_law::<M>(),
        ensures
            merged@ == self@.union(target@),
    {
        let added = target.members();
        let mut value = self.value.clone();
        let mut i: usize = 0;
        while i < added.len()
            invariant
                order_law::<M>(),
                clone_law::<M>(),
                i <= added.len(),
                added@.unref().to_set() == target@,
                value@ == self@.union(added@.unref().take(i as int).to_set()),
            decreases added.len() - i,
        {
            proof {
                let seen = added@.unref().take(i as int);
                assert(added@.unref().take(i + 1) =~= seen.push(*added@[i as int]));
                seen.lemma_push_to_set_commute(*added@[i as int]);
            }
            value.insert(copy_of(added[i]));
            i += 1;
            assert(value@ =~= self@.union(added@.unref().take(i as int).to_set()));
        }
        proof {
            assert(added@.unref().take(i as int) =~= added@.unref());
        }
        Self { value: value }
    }

    pub fn is_empty(&self) -> (empty: bool)
        ensures
            empty == self@.is_empty(),
    {
        self.value.is_empty()
    }

    /// The modifiers of the set, each once, from the least to the greatest.
    pub fn to_vec(&self) -> (modifiers: Vec<Modifier<M>>)
        requires
            order_law::<M>(),
            clone_law::<M>(),
        ensures
            raw_values(modifiers@).to_set() == self@,
            ascending(raw_values(modifiers@)),
    {
        let members = self.members();
        let mut modifiers: Vec<Modifier<M>> = Vec::new();
        let mut i: usize = 0;
        while i < members.len()
            invariant
                clone_law::<M>(),
                i <= members.len(),
                modifiers@.len() == i,
                forall|k: int| 0 <= k < i ==> (#[trigger] modifiers@[k])@ == members@.unref()[k],
            decreases members.len() - i,
        {
            modifiers.push(Modifier { value: copy_of(members[i]) });
            i += 1;
        }
        proof {
            assert(raw_values(modifiers@) =~= members@.unref());
        }
        modifiers
    }
}

/// The laws of the raw types under which key inputs over `K` and `M` can be
/// matched against each other and merged.
pub open spec fn key_input_laws<K: PartialEq + Clone, M: Ord + Clone>() -> bool {
    &&& equality_law::<K>()
    &&& clone_law::<K>()
    &&& order_law::<M>()
    &&& clone_law::<M>()
}

/// What a key input is: a key and the set of the modifiers that go with it.
#[verifier::reject_recursive_types(M)]
pub struct KeyInputView<K, M> {
    pub key: K,
    pub modifiers: Set<M>,
}

/// What a matching is: no match, or the modifiers that the match left over.
#[verifier::reject_recursive_types(M)]
pub enum MatchingView<M> {
    Unmatched,
    Remain(Set<M>),
}

impl<K, M> KeyInputView<K, M> {
    /// Matches `self`, a rule's key input, against the key input `observed`.
    /// The rule matches when the keys are equal and every modifier of the rule
    /// is held; what is held beyond the rule's modifiers remains.
    pub open spec fn match_to(self, observed: Self) -> MatchingView<M> {
        if self.key == observed.key && self.modifiers.subset_of(observed.modifiers) {
            MatchingView::Remain(observed.modifiers.difference(self.modifiers))
        } else {
            MatchingView::Unmatched
        }
    }

    /// The same key, with `extra` added to the modifiers.
    pub open spec fn merge_modifiers(self, extra: Set<M>) -> Self {
        KeyInputView { key: self.key, modifiers: self.modifiers.union(extra) }
    }
}

/// The outcome of matching a rule's key input against an observed one.
#[derive(Debug, PartialEq, Eq)]
pub enum Matching<M> {
    Unmatched,
    Remain(Modifiers<M>),
}

impl<M> View for Matching<M> {
    type V = MatchingView<M>;

    open spec fn view(&self) -> MatchingView<M> {
        match self {
            Matching::Unmatched => MatchingView::Unmatched,
            Matching::Remain(modifiers) => MatchingView::Remain(modifiers@),
        }
    }
}

/// A key held down together with a set of modifiers.
#[derive(Clone, Debug, PartialEq, Eq, PartialOrd, Ord)]
pub struct KeyInput<K, M> {
    key: Key<K>,
    modifiers: Modifiers<M>,
}

impl<K, M> View for KeyInput<K, M> {
    type V = KeyInputView<K, M>;

    closed spec fn view(&self) -> KeyInputView<K, M> {
        KeyInputView { key: self.key@, modifiers: self.modifiers@ }
    }
}

impl<K, M> DeepView for KeyInput<K, M> {
    type V = KeyInputView<K, M>;

    open spec fn deep_view(&self) -> KeyInputView<K, M> {
        self@
    }
}

impl<K: PartialEq + Clone, M: Ord + Clone> KeyInput<K, M> {
    pub fn new(key: Key<K>, modifiers: Modifiers<M>) -> (key_input: Self)
        ensures
            key_input@ == (KeyInputView { key: key@, modifiers: modifiers@ }),
    {
        Self { key: key, modifiers: modifiers }
    }

    /// The key input of the raw key `k` and the raw modifiers `ms`.
    pub fn of(k: K, ms: Vec<M>) -> (key_input: Self)
        ensures
            order_law::<M>() ==> key_input@ == (KeyInputView { key: k, modifiers: ms@.to_set() }),
    {
        let ghost all = ms@;
        let mut rest = ms;
        let mut modifiers: Vec<Modifier<M>> = Vec::new();
        while rest.len() > 0
            invariant
                raw_values(modifiers@).to_set().union(rest@.to_set()) == all.to_set(),
            decreases rest.len(),
        {
            let ghost before_pop = rest@;
            let ghost wrapped = raw_values(modifiers@);
            let m = rest.pop().unwrap();
            proof {
                assert(before_pop =~= rest@.push(m));
                rest@.lemma_push_to_set_commute(m);
                wrapped.lemma_push_to_set_commute(m);
            }
            modifiers.push(Modifier::new(m));
            proof {
                assert(raw_values(modifiers@) =~= wrapped.push(m));
                assert(raw_values(modifiers@).to_set().union(rest@.to_set()) =~= all.to_set());
            }
        }
        assert(raw_values(modifiers@).to_set() =~= all.to_set());
        Self::new(Key::new(k), Modifiers::new(modifiers))
    }

    /// Matches `self`, a rule's key input, against the observed `target`.
    pub fn match_to(&self, target: &Self) -> (matching: Matching<M>)
        requires
            key_input_laws::<K, M>(),
        ensures
            matching@ == self@.match_to(target@),
    {
        if same(&self.key.value, &target.key.value) {
            if let ModifiersSub::SubResult(remaining_modifiers) =
                target.modifiers.subtract_modifiers(&self.modifiers) {
                Matching::Remain(remaining_modifiers)
            } else {
                Matching::Unmatched
            }
        } else {
            Matching::Unmatched
        }
    }

    /// The same key, with `modifiers` added to the modifiers of `self`.
    pub fn merge_modifiers(&self, modifiers: &Modifiers<M>) -> (merged: Self)
        requires
            key_input_laws::<K, M>(),
        ensures
            merged@ == self@.merge_modifiers(modifiers@),
    {
        Self { key: Key::new(self.key.raw_value()), modifiers: self.modifiers.merge(modifiers) }
    }

    pub fn key(&self) -> (key: Key<K>)
        ensures
            clone_law::<K>() ==> key@ == self@.key,
    {
        Key::new(self.key.raw_value())
    }

    pub fn modifiers(&self) -> (modifiers: Modifiers<M>)
        ensures
            modifiers@ == self@.modifiers,
    {
        Modifiers { value: self.modifiers.value.clone() }
    }

    /// A key input with the same key and the same modifiers.
    pub fn duplicate(&self) -> (copy: Self)
        ensures
            clone_law::<K>() ==> copy@ == self@,
    {
        Self { key: self.key(), modifiers: self.modifiers() }
    }
}

/// A rule matches an observed key input with the same key exactly when the
/// rule's modifiers are a subset of the observed ones, and the match then
/// leaves the observed modifiers without the rule's; with different keys it
/// never matches.
pub proof fn lemma_match_to_is_subset_matching<K, M>(
    rule: KeyInputView<K, M>,
    observed: KeyInputView<K, M>,
)
    ensures
        rule.key == observed.key ==> (rule.match_to(observed) is Remain
            <==> rule.modifiers.subset_of(observed.modifiers)),
        rule.key == observed.key ==> forall|m: Set<M>|
            (rule.match_to(observed) == MatchingView::Remain(m) <==> rule.modifiers.subset_of(
                observed.modifiers,
            ) && m == observed.modifiers.difference(rule.modifiers)),
        rule.key != observed.key ==> rule.match_to(observed) is Unmatched,
        !rule.modifiers.subset_of(observed.modifiers) ==> rule.match_to(observed) is Unmatched,
{
}

/// A rule matches its own key input with any modifiers held in addition,
/// and what the match leaves over are the modifiers that the rule does not
/// ask for: these are the key inputs that have to reach the rule.
pub proof fn lemma_rule_matches_with_more_modifiers<K, M>(rule: KeyInputView<K, M>, extra: Set<M>)
    ensures
        rule.match_to(rule.merge_modifiers(extra)) == MatchingView::Remain(
            extra.difference(rule.modifiers),
        ),
        rule.match_to(rule) == MatchingView::Remain(Set::<M>::empty()),
{
    assert(rule.modifiers.union(extra).difference(rule.modifiers) =~= extra.difference(
        rule.modifiers,
    ));
    assert(rule.modifiers.difference(rule.modifiers) =~= Set::<M>::empty());
}

/// Merging a set of modifiers a second time changes nothing, and merging is
/// the union of the sets: neither the order nor the number of merges counts.
pub proof fn lemma_merge_modifiers_is_idempotent<K, M>(
    key_input: KeyInputView<K, M>,
    extra: Set<M>,
    other: Set<M>,
)
    ensures
        key_input.merge_modifiers(extra).merge_modifiers(extra) == key_input.merge_modifiers(
            extra,
        ),
        key_input.merge_modifiers(key_input.modifiers) == key_input,
        key_input.merge_modifiers(extra).merge_modifiers(other) == key_input.merge_modifiers(
            other,
        ).merge_modifiers(extra),
        key_input.merge_modifiers(extra).merge_modifiers(other) == key_input.merge_modifiers(
            extra.union(other),
        ),
{
    assert(key_input.modifiers.union(extra).union(extra) =~= key_input.modifiers.union(extra));
    assert(key_input.modifiers.union(key_input.modifiers) =~= key_input.modifiers);
    assert(key_input.modifiers.union(extra).union(other) =~= key_input.modifiers.union(
        other,
    ).union(extra));
    assert(key_input.modifiers.union(extra).union(other) =~= key_input.modifiers.union(
        extra.union(other),
    ));
}

/// Whether `members` lists the set `set`: its members, each once, from the
/// least to the greatest.
pub open spec fn lists<M: Ord>(members: Seq<M>, set: Set<M>) -> bool {
    ascending(members) && members.to_set() == set
}

/// Whether `at` is the first place at which `a` and `b` differ, and `a` is
/// the lesser there: up to `at` the two are the same, and at `at` either `a`
/// has ended and `b` has not, or `a` has the lesser member.
pub open spec fn is_less_at<M: Ord>(a: Seq<M>, b: Seq<M>, at: int) -> bool {
    &&& 0 <= at <= a.len()
    &&& at < b.len()
    &&& forall|i: int| 0 <= i < at ==> a[i] == b[i]
    &&& (at == a.len() || precedes(a[at], b[at]))
}

/// Whether the list `a` stands before the list `b` as words do in a
/// dictionary.
pub open spec fn list_sorts_before<M: Ord>(a: Seq<M>, b: Seq<M>) -> bool {
    exists|at: int| is_less_at(a, b, at)
}

/// The order in which sets of modifiers are sorted: as words in a
/// dictionary, each set read by its members from the least to the greatest.
/// This is the order of `<` on `Modifiers`.
pub open spec fn set_sorts_before<M: Ord>(a: Set<M>, b: Set<M>) -> bool {
    exists|x: Seq<M>, y: Seq<M>| lists(x, a) && lists(y, b) && #[trigger] list_sorts_before(x, y)
}

/// A set has one list only.
pub proof fn lemma_one_list_of_a_set<M: Ord>(s: Seq<M>, t: Seq<M>, set: Set<M>)
    requires
        order_law::<M>(),
        lists(s, set),
        lists(t, set),
    ensures
        s == t,
    decreases s.len(),
{
    crate::laws::lemma_precedes_is_strict_total_order::<M>();
    if s.len() == 0 {
        if t.len() > 0 {
            assert(t.contains(t[0]));
            assert(s.to_set().contains(t[0]));
        }
        assert(s =~= t);
    } else {
        assert(s.contains(s[0]));
        assert(t.to_set().contains(s[0]));
        let j = choose|j: int| 0 <= j < t.len() && t[j] == s[0];
        assert(t.contains(t[0]));
        assert(s.to_set().contains(t[0]));
        let i = choose|i: int| 0 <= i < s.len() && s[i] == t[0];
        if j > 0 {
            assert(precedes(t[0], t[j]));
            if i > 0 {
                assert(precedes(s[0], s[i]));
            }
        }
        assert(s[0] == t[0]);
        let s_rest = s.drop_first();
        let t_rest = t.drop_first();
        assert forall|x: M| s_rest.to_set().contains(x) <==> t_rest.to_set().contains(x) by {
            if s_rest.contains(x) {
                let k = choose|k: int| 0 <= k < s_rest.len() && s_rest[k] == x;
                assert(s[k + 1] == x);
                assert(precedes(s[0], s[k + 1]));
                assert(s.contains(x));
                assert(t.to_set().contains(x));
                let l = choose|l: int| 0 <= l < t.len() && t[l] == x;
                assert(l > 0);
                assert(t_rest[l - 1] == x);
            }
            if t_rest.contains(x) {
                let k = choose|k: int| 0 <= k < t_rest.len() && t_rest[k] == x;
                assert(t[k + 1] == x);
                assert(precedes(t[0], t[k + 1]));
                assert(t.contains(x));
                assert(s.to_set().contains(x));
                let l = choose|l: int| 0 <= l < s.len() && s[l] == x;
                assert(l > 0);
                assert(s_rest[l - 1] == x);
            }
        }
        assert(s_rest.to_set() =~= t_rest.to_set());
        assert forall|a: int, b: int| 0 <= a < b < s_rest.len() implies precedes(
            s_rest[a],
            s_rest[b],
        ) by {
            assert(precedes(s[a + 1], s[b + 1]));
        }
        assert forall|a: int, b: int| 0 <= a < b < t_rest.len() implies precedes(
            t_rest[a],
            t_rest[b],
        ) by {
            assert(precedes(t[a + 1], t[b + 1]));
        }
        lemma_one_list_of_a_set(s_rest, t_rest, s_rest.to_set());
        assert(s =~= seq![s[0]] + s_rest);
        assert(t =~= seq![t[0]] + t_rest);
    }
}

/// The order of lists is strict: no list stands before itself, and of two
/// lists at most one stands before the other.
pub proof fn lemma_list_order_is_asymmetric<M: Ord>(a: Seq<M>, b: Seq<M>)
    requires
        order_law::<M>(),
        list_sorts_before(a, b),
    ensures
        a != b,
        !list_sorts_before(b, a),
{
    crate::laws::lemma_precedes_is_strict_total_order::<M>();
    let p = choose|p: int| is_less_at(a, b, p);
    if a == b {
        if p < a.len() {
            assert(precedes(a[p], b[p]));
        }
    }
    if list_sorts_before(b, a) {
        let q = choose|q: int| is_less_at(b, a, q);
        if p < q {
            assert(b[p] == a[p]);
        } else if q < p {
            assert(a[q] == b[q]);
        }
    }
}

/// The order of lists is transitive.
pub proof fn lemma_list_order_is_transitive<M: Ord>(a: Seq<M>, b: Seq<M>, c: Seq<M>)
    requires
        order_law::<M>(),
        list_sorts_before(a, b),
        list_sorts_before(b, c),
    ensures
        list_sorts_before(a, c),
{
    crate::laws::lemma_precedes_is_strict_total_order::<M>();
    let p = choose|p: int| is_less_at(a, b, p);
    let q = choose|q: int| is_less_at(b, c, q);
    if p < q {
        assert(b[p] == c[p]);
        assert forall|i: int| 0 <= i < p implies a[i] == c[i] by {
            assert(a[i] == b[i]);
            assert(b[i] == c[i]);
        }
        assert(is_less_at(a, c, p));
    } else {
        assert forall|i: int| 0 <= i < q implies a[i] == c[i] by {
            assert(a[i] == b[i]);
            assert(b[i] == c[i]);
        }
        if q < p {
            assert(a[q] == b[q]);
        }
        assert(is_less_at(a, c, q));
    }
}

/// The order of sets of modifiers is strict: no set goes before itself, and
/// of two sets at most one goes before the other.
pub proof fn lemma_set_order_is_asymmetric<M: Ord>(a: Set<M>, b: Set<M>)
    requires
        order_law::<M>(),
        set_sorts_before(a, b),
    ensures
        a != b,
        !set_sorts_before(b, a),
{
    let (x, y) = choose|x: Seq<M>, y: Seq<M>|
        lists(x, a) && lists(y, b) && #[trigger] list_sorts_before(x, y);
    lemma_list_order_is_asymmetric(x, y);
    if a == b {
        lemma_one_list_of_a_set(x, y, a);
    }
    if set_sorts_before(b, a) {
        let (v, w) = choose|v: Seq<M>, w: Seq<M>|
            lists(v, b) && lists(w, a) && #[trigger] list_sorts_before(v, w);
        lemma_one_list_of_a_set(v, y, b);
        lemma_one_list_of_a_set(w, x, a);
    }
}

/// The order of sets of modifiers is transitive.
pub proof fn lemma_set_order_is_transitive<M: Ord>(a: Set<M>, b: Set<M>, c: Set<M>)
    requires
        order_law::<M>(),
        set_sorts_before(a, b),
        set_sorts_before(b, c),
    ensures
        set_sorts_before(a, c),
{
    let (x, y) = choose|x: Seq<M>, y: Seq<M>|
        lists(x, a) && lists(y, b) && #[trigger] list_sorts_before(x, y);
    let (v, w) = choose|v: Seq<M>, w: Seq<M>|
        lists(v, b) && lists(w, c) && #[trigger] list_sorts_before(v, w);
    lemma_one_list_of_a_set(v, y, b);
    lemma_list_order_is_transitive(x, y, w);
    assert(lists(x, a) && lists(w, c) && list_sorts_before(x, w));
}

/// Where a set goes before another, the least modifier that only one of the
/// two holds decides: it is in the first, and the second holds a greater
/// one; or it is in the second, and the first holds no greater one.
pub proof fn lemma_least_difference_decides<M: Ord>(a: Set<M>, b: Set<M>)
    requires
        order_law::<M>(),
        set_sorts_before(a, b),
    ensures
        exists|d: M|
            {
                &&& a.contains(d) != b.contains(d)
                &&& forall|e: M| precedes(e, d) ==> (a.contains(e) <==> b.contains(e))
                &&& (a.contains(d) ==> exists|e: M| #[trigger] b.contains(e) && precedes(d, e))
                &&& (b.contains(d) ==> forall|e: M| #[trigger] a.contains(e) ==> !precedes(d, e))
            },
{
    crate::laws::lemma_precedes_is_strict_total_order::<M>();
    let (x, y) = choose|x: Seq<M>, y: Seq<M>|
        lists(x, a) && lists(y, b) && #[trigger] list_sorts_before(x, y);
    let at = choose|at: int| is_less_at(x, y, at);
    assert forall|i: int, e: M| 0 <= i < x.len() && x[i] == e implies x.contains(e) by {}
    assert forall|i: int, e: M| 0 <= i < y.len() && y[i] == e implies y.contains(e) by {}
    let d = if at == x.len() { y[at] } else { x[at] };
    assert forall|e: M| precedes(e, d) implies (a.contains(e) <==> b.contains(e)) by {
        if x.contains(e) {
            let i = choose|i: int| 0 <= i < x.len() && x[i] == e;
            if i >= at {
                if i > at {
                    assert(precedes(x[at], x[i]));
                }
            } else {
                assert(y[i] == e);
                assert(y.contains(e));
            }
        }
        if y.contains(e) {
            let i = choose|i: int| 0 <= i < y.len() && y[i] == e;
            if i >= at {
                if i > at {
                    assert(precedes(y[at], y[i]));
                }
            } else {
                assert(x[i] == e);
                assert(x.contains(e));
            }
        }
    }
    if at == x.len() {
        assert(y.contains(d));
        assert(!x.contains(d)) by {
            if x.contains(d) {
                let i = choose|i: int| 0 <= i < x.len() && x[i] == d;
                assert(y[i] == d);
                assert(precedes(y[i], y[at]));
            }
        }
        assert forall|e: M| #[trigger] a.contains(e) implies !precedes(d, e) by {
            assert(x.contains(e));
            let i = choose|i: int| 0 <= i < x.len() && x[i] == e;
            assert(y[i] == e);
            assert(precedes(y[i], y[at]));
        }
    } else {
        assert(x.contains(d));
        assert(!y.contains(d)) by {
            if y.contains(d) {
                let i = choose|i: int| 0 <= i < y.len() && y[i] == d;
                if i < at {
                    assert(x[i] == d);
                    assert(precedes(x[i], x[at]));
                } else if i > at {
                    assert(precedes(y[at], y[i]));
                }
            }
        }
        assert(b.contains(y[at]) && precedes(d, y[at]));
    }
    assert(a.contains(d) != b.contains(d));
}

/// How one value stands to another in the order in which they are sorted.
pub(crate) enum Rank {
    Lower,
    Equal,
    Higher,
}

impl<M: Ord + Clone> Modifiers<M> {
    /// Where `self` stands to `other` in the order of sets of modifiers.
    fn rank(&self, other: &Self) -> (rank: Rank)
        requires
            order_law::<M>(),
        ensures
            match rank {
                Rank::Lower => set_sorts_before(self@, other@),
                Rank::Equal => self@ == other@,
                Rank::Higher => set_sorts_before(other@, self@),
            },
    {
        let mine = self.members();
        let theirs = other.members();
        let ghost a = mine@.unref();
        let ghost b = theirs@.unref();
        let mut i: usize = 0;
        while i < mine.len() && i < theirs.len()
            invariant
                order_law::<M>(),
                a == mine@.unref(),
                b == theirs@.unref(),
                lists(a, self@),
                lists(b, other@),
                i <= a.len(),
                i <= b.len(),
                forall|k: int| 0 <= k < i ==> a[k] == b[k],
            decreases mine.len() - i,
        {
            if before(mine[i], theirs[i]) {
                proof {
                    assert(is_less_at(a, b, i as int));
                    assert(lists(a, self@) && lists(b, other@) && list_sorts_before(a, b));
                }
                return Rank::Lower;
            }
            if before(theirs[i], mine[i]) {
                proof {
                    assert(is_less_at(b, a, i as int));
                    assert(lists(b, other@) && lists(a, self@) && list_sorts_before(b, a));
                }
                return Rank::Higher;
            }
            proof {
                crate::laws::lemma_precedes_is_strict_total_order::<M>();
                assert(a[i as int] == b[i as int]);
            }
            i += 1;
        }
        if i < theirs.len() {
            proof {
                assert(is_less_at(a, b, i as int));
                assert(lists(a, self@) && lists(b, other@) && list_sorts_before(a, b));
            }
            Rank::Lower
        } else if i < mine.len() {
            proof {
                assert(is_less_at(b, a, i as int));
                assert(lists(b, other@) && lists(a, self@) && list_sorts_before(b, a));
            }
            Rank::Higher
        } else {
            proof {
                assert(a =~= b);
            }
            Rank::Equal
        }
    }
}

impl<K: Ord, M: Ord> KeyInputView<K, M> {
    /// The order in which key inputs are sorted: by the key first, and among
    /// key inputs of one key by the set of the modifiers. This is the order
    /// of `<` on `KeyInput`.
    pub open spec fn sorts_before(self, other: Self) -> bool {
        precedes(self.key, other.key) || (self.key == other.key && set_sorts_before(
            self.modifiers,
            other.modifiers,
        ))
    }
}

/// The order of key inputs is strict: of two key inputs at most one goes
/// before the other, and none goes before itself.
pub proof fn lemma_key_input_order_is_asymmetric<K: Ord, M: Ord>(
    a: KeyInputView<K, M>,
    b: KeyInputView<K, M>,
)
    requires
        order_law::<K>(),
        order_law::<M>(),
        a.sorts_before(b),
    ensures
        a != b,
        !b.sorts_before(a),
{
    crate::laws::lemma_precedes_is_strict_total_order::<K>();
    if a.key == b.key {
        lemma_set_order_is_asymmetric(a.modifiers, b.modifiers);
    }
}

/// The order of key inputs is transitive.
pub proof fn lemma_key_input_order_is_transitive<K: Ord, M: Ord>(
    a: KeyInputView<K, M>,
    b: KeyInputView<K, M>,
    c: KeyInputView<K, M>,
)
    requires
        order_law::<K>(),
        order_law::<M>(),
        a.sorts_before(b),
        b.sorts_before(c),
    ensures
        a.sorts_before(c),
{
    crate::laws::lemma_precedes_is_strict_total_order::<K>();
    if a.key == b.key && b.key == c.key {
        lemma_set_order_is_transitive(a.modifiers, b.modifiers, c.modifiers);
    }
}

impl<K: Ord + Clone, M: Ord + Clone> KeyInput<K, M> {
    /// Where `self` stands to `other` in the order of key inputs.
    pub(crate) fn rank(&self, other: &Self) -> (rank: Rank)
        requires
            order_law::<K>(),
            order_law::<M>(),
        ensures
            match rank {
                Rank::Lower => self@.sorts_before(other@),
                Rank::Equal => self@ == other@,
                Rank::Higher => other@.sorts_before(self@),
            },
    {
        if before(&self.key.value, &other.key.value) {
            Rank::Lower
        } else if before(&other.key.value, &self.key.value) {
            Rank::Higher
        } else {
            proof {
                crate::laws::lemma_precedes_is_strict_total_order::<K>();
            }
            self.modifiers.rank(&other.modifiers)
        }
    }

    /// Whether `self` goes before `other` where key inputs are sorted.
    pub fn sorts_before(&self, other: &Self) -> (before: bool)
        requires
            order_law::<K>(),
            order_law::<M>(),
        ensures
            before == self@.sorts_before(other@),
    {
        match self.rank(other) {
            Rank::Lower => true,
            Rank::Equal => {
                proof {
                    if self@.sorts_before(other@) {
                        lemma_key_input_order_is_asymmetric(self@, other@);
                    }
                }
                false
            },
            Rank::Higher => {
                proof {
                    lemma_key_input_order_is_asymmetric(other@, self@);
                }
                false
            },
        }
    }

    /// Whether `self` and `other` are the same key with the same modifiers.
    pub fn same_as(&self, other: &Self) -> (same: bool)
        requires
            order_law::<K>(),
            order_law::<M>(),
        ensures
            same == (self@ == other@),
    {
        match self.rank(other) {
            Rank::Lower => {
                proof {
                    lemma_key_input_order_is_asymmetric(self@, other@);
                }
                false
            },
            Rank::Equal => true,
            Rank::Higher => {
                proof {
                    lemma_key_input_order_is_asymmetric(other@, self@);
                }
                false
            },
        }
    }
}

} // verus!
