use std::collections::BTreeMap;
use std::collections::BTreeSet;
use vstd::prelude::*;
use vstd::std_specs::btree::increasing_seq;
use vstd::std_specs::btree::spec_btree_keys_iter;
use vstd::std_specs::btree::spec_keys_iter;
use vstd::std_specs::cmp::OrdSpec;
use vstd::std_specs::iter::IteratorSpec;

verus! {

/// Strictly ascending.
pub open spec fn ascending(s: Seq<usize>) -> bool {
    forall|i: int, j: int| 0 <= i < j < s.len() ==> s[i] < s[j]
}

/// `s` lists exactly the members of `set`, in ascending order.
pub open spec fn lists(s: Seq<usize>, set: Set<usize>) -> bool {
    &&& ascending(s)
    &&& forall|k: usize| set.contains(k) <==> s.contains(k)
}

/// The members of `set`, smallest first.
pub open spec fn ascending_of(set: Set<usize>) -> Seq<usize> {
    choose|s: Seq<usize>| lists(s, set)
}

/// A set is listed in ascending order in one way only.
pub proof fn lemma_lists_unique(s1: Seq<usize>, s2: Seq<usize>, set: Set<usize>)
    requires
        lists(s1, set),
        lists(s2, set),
    ensures
        s1 == s2,
    decreases s1.len(),
{
    if s1.len() == 0 {
        if s2.len() > 0 {
            assert(s2.contains(s2[0]));
            assert(set.contains(s2[0]));
        }
        assert(s1 =~= s2);
    } else {
        assert(s1.contains(s1[0]));
        assert(set.contains(s1[0]));
        let k = choose|k: int| 0 <= k < s2.len() && s2[k] == s1[0];
        assert(s2.contains(s2[0]));
        assert(set.contains(s2[0]));
        let j = choose|j: int| 0 <= j < s1.len() && s1[j] == s2[0];
        assert(s1[0] == s2[0]) by {
            if j > 0 {
                assert(s1[0] < s1[j]);
            }
            if k > 0 {
                assert(s2[0] < s2[k]);
            }
        }
        let first = s1[0];
        lemma_lists_rest(s1, set);
        lemma_lists_rest(s2, set);
        lemma_lists_unique(s1.drop_first(), s2.drop_first(), set.remove(first));
        assert(s1 =~= seq![first] + s1.drop_first());
        assert(s2 =~= seq![first] + s2.drop_first());
    }
}

/// Without its first member, an ascending list lists the set without it.
proof fn lemma_lists_rest(s: Seq<usize>, set: Set<usize>)
    requires
        lists(s, set),
        s.len() > 0,
    ensures
        lists(s.drop_first(), set.remove(s[0])),
{
    let rest = s.drop_first();
    assert forall|i: int, j: int| 0 <= i < j < rest.len() implies rest[i] < rest[j] by {
        assert(s[i + 1] < s[j + 1]);
    }
    assert forall|k: usize| set.remove(s[0]).contains(k) <==> rest.contains(k) by {
        if set.remove(s[0]).contains(k) {
            assert(s.contains(k));
            let i = choose|i: int| 0 <= i < s.len() && s[i] == k;
            assert(rest[i - 1] == k);
        }
        if rest.contains(k) {
            let i = choose|i: int| 0 <= i < rest.len() && rest[i] == k;
            assert(s[i + 1] == k);
            assert(s.contains(k));
            assert(s[0] < s[i + 1]);
        }
    }
}

/// An ascending list of a set is the ascending list of the set.
pub proof fn lemma_ascending_of(s: Seq<usize>, set: Set<usize>)
    requires
        lists(s, set),
    ensures
        s == ascending_of(set),
{
    lemma_lists_unique(s, ascending_of(set), set);
}

proof fn lemma_refs_ascending(rem: Seq<&usize>)
    requires
        increasing_seq(rem),
    ensures
        ascending(rem.unref()),
{
    broadcast use vstd::laws_cmp::lemma_ref_obeys_cmp_spec;

    assert(vstd::laws_cmp::obeys_cmp::<usize>());
    assert(vstd::laws_cmp::obeys_cmp::<&usize>());
    vstd::std_specs::btree::axiom_increasing_seq_meaning::<&usize>(rem);
    let s = rem.unref();
    assert forall|i: int, j: int| 0 <= i < j < s.len() implies s[i] < s[j] by {
        assert(OrdSpec::cmp_spec(&rem[i], &rem[j]) is Less);
    }
}

proof fn lemma_lists(s: Seq<usize>, set: Set<usize>)
    requires
        ascending(s),
        s.to_set() == set,
    ensures
        lists(s, set),
{
    assert forall|k: usize| set.contains(k) <==> s.contains(k) by {
        assert(s.to_set().contains(k) <==> s.contains(k));
    }
}

/// The keys of a map, smallest first.
pub fn sorted_keys<V>(m: &BTreeMap<usize, V>) -> (keys: Vec<usize>)
    ensures
        lists(keys@, m@.dom()),
        keys@.len() == m@.dom().len(),
{
    let mut keys: Vec<usize> = Vec::new();
    let ghost rem = spec_keys_iter(m).remaining();
    for k in it: m.keys()
        invariant
            it.seq() == rem,
            rem == spec_keys_iter(m).remaining(),
            keys@ == it.seq().take(it.index()).unref(),
    {
        keys.push(*k);
    }
    proof {
        assert(keys@ == rem.unref());
        lemma_refs_ascending(rem);
        lemma_lists(keys@, m@.dom());
    }
    keys
}

/// The members of a set, smallest first.
pub fn sorted_members(s: &BTreeSet<usize>) -> (members: Vec<usize>)
    ensures
        lists(members@, s@),
        members@.len() == s@.len(),
{
    let mut members: Vec<usize> = Vec::new();
    let ghost rem = spec_btree_keys_iter(s).remaining();
    for k in it: s.iter()
        invariant
            it.seq() == rem,
            rem == spec_btree_keys_iter(s).remaining(),
            members@ == it.seq().take(it.index()).unref(),
    {
        members.push(*k);
    }
    proof {
        assert(members@ == rem.unref());
        lemma_refs_ascending(rem);
        lemma_lists(members@, s@);
    }
    members
}

/// The greatest of the ascending `keys` that is at most `bound`.
pub fn greatest_at_most(keys: &Vec<usize>, bound: usize) -> (found: Option<usize>)
    requires
        ascending(keys@),
    ensures
        match found {
            Some(k) => keys@.contains(k) && k <= bound && forall|j: int|
                0 <= j < keys@.len() && #[trigger] keys@[j] <= bound ==> keys@[j] <= k,
            None => forall|j: int| 0 <= j < keys@.len() ==> #[trigger] keys@[j] > bound,
        },
{
    let mut found: Option<usize> = None;
    let mut i: usize = 0;
    while i < keys.len() && keys[i] <= bound
        invariant
            i <= keys.len(),
            ascending(keys@),
            forall|j: int| 0 <= j < i ==> #[trigger] keys@[j] <= bound,
            match found {
                Some(k) => i > 0 && k == keys@[i - 1],
                None => i == 0,
            },
        decreases keys.len() - i,
    {
        found = Some(keys[i]);
        i += 1;
    }
    proof {
        assert forall|j: int| i <= j < keys@.len() implies #[trigger] keys@[j] > bound by {
            if i < j {
                assert(keys@[i as int] < keys@[j]);
            }
        }
        if i > 0 {
            assert(keys@.contains(keys@[i - 1]));
            assert forall|j: int| 0 <= j < keys@.len() && #[trigger] keys@[j] <= bound
                implies keys@[j]
                <= keys@[i - 1] by {
                if j < i - 1 {
                    assert(keys@[j] < keys@[i - 1]);
                }
            }
        }
    }
    found
}

} // verus!
