//! A finite set of asset ids that remembers the order of insertion.

use vstd::prelude::*;
use crate::asset::AssetId;

verus! {

/// A set of asset ids. The ids are kept in the order in which they were first
/// inserted, so the bytes of an encoded set are a function of its view alone.
/// A well-formed set holds no id twice.
#[derive(Debug)]
pub struct IdSet {
    ids: Vec<AssetId>,
}

impl View for IdSet {
    type V = Seq<AssetId>;

    closed spec fn view(&self) -> Seq<AssetId> {
        self.ids@
    }
}

/// The ids of `a` that are not in `b`, in the order of `a`.
pub open spec fn seq_difference(a: Seq<AssetId>, b: Seq<AssetId>) -> Seq<AssetId>
    decreases a.len(),
{
    if a.len() == 0 {
        a
    } else {
        let head = seq_difference(a.drop_last(), b);
        if b.contains(a.last()) {
            head
        } else {
            head.push(a.last())
        }
    }
}

/// The ids of `a`, followed by those of `b` that `a` lacks, each once.
pub open spec fn seq_union(a: Seq<AssetId>, b: Seq<AssetId>) -> Seq<AssetId>
    decreases b.len(),
{
    if b.len() == 0 {
        a
    } else {
        let head = seq_union(a, b.drop_last());
        if head.contains(b.last()) {
            head
        } else {
            head.push(b.last())
        }
    }
}

/// An id is in `s.push(x)` when it is in `s` or is `x`.
pub proof fn lemma_push_contains(s: Seq<AssetId>, x: AssetId)
    ensures
        forall|id: AssetId| #[trigger] s.push(x).contains(id) <==> s.contains(id) || id == x,
{
    assert forall|id: AssetId| #[trigger] s.push(x).contains(id) <==> s.contains(id) || id
        == x by {
        let whole = s.push(x);
        if s.contains(id) {
            let j = choose|j: int| 0 <= j < s.len() && s[j] == id;
            assert(whole[j] == id);
        }
        if id == x {
            assert(whole[s.len() as int] == id);
        }
    }
}

/// Pushing an id that a distinct sequence lacks keeps it distinct.
pub proof fn lemma_push_distinct(s: Seq<AssetId>, x: AssetId)
    requires
        s.no_duplicates(),
        !s.contains(x),
    ensures
        s.push(x).no_duplicates(),
{
    let whole = s.push(x);
    assert forall|i: int, j: int|
        0 <= i < whole.len() && 0 <= j < whole.len() && i != j implies whole[i] != whole[j] by {
        if i < s.len() && j < s.len() {
        } else if i < s.len() {
            assert(s.contains(whole[i]));
        } else {
            assert(s.contains(whole[j]));
        }
    }
}

/// `seq_union` holds exactly the ids of both arguments, each once.
pub proof fn lemma_seq_union(a: Seq<AssetId>, b: Seq<AssetId>)
    requires
        a.no_duplicates(),
    ensures
        seq_union(a, b).no_duplicates(),
        forall|id: AssetId| #[trigger]
            seq_union(a, b).contains(id) <==> a.contains(id) || b.contains(id),
        seq_union(a, b).to_set() == a.to_set().union(b.to_set()),
    decreases b.len(),
{
    if b.len() > 0 {
        let front = b.drop_last();
        lemma_seq_union(a, front);
        let head = seq_union(a, front);
        lemma_push_contains(head, b.last());
        lemma_push_contains(front, b.last());
        assert(front.push(b.last()) == b);
        if !head.contains(b.last()) {
            lemma_push_distinct(head, b.last());
        }
    }
    assert(seq_union(a, b).to_set() =~= a.to_set().union(b.to_set()));
}

/// The union of nothing with a sequence without repetitions is that sequence.
pub proof fn lemma_union_of_distinct(ids: Seq<AssetId>)
    requires
        ids.no_duplicates(),
    ensures
        seq_union(Seq::empty(), ids) == ids,
    decreases ids.len(),
{
    if ids.len() > 0 {
        let front = ids.drop_last();
        lemma_union_of_distinct(front);
        assert(!front.contains(ids.last())) by {
            if front.contains(ids.last()) {
                let j = choose|j: int| 0 <= j < front.len() && front[j] == ids.last();
                assert(ids[j] == ids[ids.len() - 1]);
            }
        }
        assert(front.push(ids.last()) == ids);
    }
}

/// `seq_difference` holds exactly the ids of `a` that `b` lacks, each once.
pub proof fn lemma_seq_difference(a: Seq<AssetId>, b: Seq<AssetId>)
    requires
        a.no_duplicates(),
    ensures
        seq_difference(a, b).no_duplicates(),
        forall|id: AssetId| #[trigger]
            seq_difference(a, b).contains(id) <==> a.contains(id) && !b.contains(id),
        seq_difference(a, b).to_set() == a.to_set().difference(b.to_set()),
    decreases a.len(),
{
    if a.len() > 0 {
        let front = a.drop_last();
        lemma_seq_difference(front, b);
        let head = seq_difference(front, b);
        lemma_push_contains(head, a.last());
        lemma_push_contains(front, a.last());
        assert(front.push(a.last()) == a);
        assert(!front.contains(a.last())) by {
            if front.contains(a.last()) {
                let j = choose|j: int| 0 <= j < front.len() && front[j] == a.last();
                assert(a[j] == a[a.len() - 1]);
            }
        }
        if !b.contains(a.last()) {
            lemma_push_distinct(head, a.last());
        }
    }
    assert(seq_difference(a, b).to_set() =~= a.to_set().difference(b.to_set()));
}

impl IdSet {
    /// No id occurs twice.
    pub open spec fn wf(&self) -> bool {
        self@.no_duplicates()
    }

    /// The ids of the set, without their order.
    pub open spec fn as_set(&self) -> Set<AssetId> {
        self@.to_set()
    }

    pub fn new() -> (set: IdSet)
        ensures
            set@ == Seq::<AssetId>::empty(),
            set.wf(),
    {
        IdSet { ids: Vec::new() }
    }

    pub fn len(&self) -> (n: usize)
        ensures
            n == self@.len(),
    {
        self.ids.len()
    }

    pub fn is_empty(&self) -> (empty: bool)
        ensures
            empty == (self@.len() == 0),
    {
        self.ids.len() == 0
    }

    /// The id at position `index` of the insertion order.
    pub fn get(&self, index: usize) -> (id: AssetId)
        requires
            index < self@.len(),
        ensures
            id == self@[index as int],
    {
        self.ids[index]
    }

    pub fn contains(&self, id: AssetId) -> (found: bool)
        ensures
            found == self@.contains(id),
    {
        let mut i: usize = 0;
        while i < self.ids.len()
            invariant
                i <= self.ids@.len(),
                forall|j: int| 0 <= j < i ==> self.ids@[j] != id,
            decreases self.ids@.len() - i,
        {
            if self.ids[i] == id {
                return true;
            }
            i += 1;
        }
        false
    }

    /// Adds `id` at the end unless the set holds it already; says whether it was added.
    pub fn insert(&mut self, id: AssetId) -> (fresh: bool)
        requires
            old(self).wf(),
        ensures
            final(self).wf(),
            fresh == !old(self)@.contains(id),
            final(self)@ == if fresh {
                old(self)@.push(id)
            } else {
                old(self)@
            },
    {
        if self.contains(id) {
            false
        } else {
            proof {
                lemma_push_distinct(self.ids@, id);
            }
            self.ids.push(id);
            true
        }
    }

    /// Takes `id` out of the set; says whether it was there.
    pub fn remove(&mut self, id: AssetId) -> (found: bool)
        requires
            old(self).wf(),
        ensures
            final(self).wf(),
            found == old(self)@.contains(id),
            final(self)@ == seq_difference(old(self)@, seq![id]),
            final(self).as_set() == old(self).as_set().remove(id),
    {
        let mut single = IdSet::new();
        single.insert(id);
        let found = self.contains(id);
        let rest = self.difference(&single);
        proof {
            assert(single@ == seq![id]);
            assert(single@[0] == id);
            lemma_seq_difference(self@, single@);
            assert(rest.as_set() =~= self.as_set().remove(id));
        }
        self.ids = rest.ids;
        found
    }

    /// The ids of `self` that `other` lacks.
    pub fn difference(&self, other: &IdSet) -> (rest: IdSet)
        requires
            self.wf(),
        ensures
            rest.wf(),
            rest@ == seq_difference(self@, other@),
            rest.as_set() == self.as_set().difference(other.as_set()),
    {
        let mut kept: Vec<AssetId> = Vec::new();
        let mut i: usize = 0;
        while i < self.ids.len()
            invariant
                i <= self.ids@.len(),
                kept@ == seq_difference(self.ids@.take(i as int), other@),
            decreases self.ids@.len() - i,
        {
            let current = self.ids[i];
            proof {
                assert(self.ids@.take(i + 1).drop_last() == self.ids@.take(i as int));
            }
            if !other.contains(current) {
                kept.push(current);
            }
            i += 1;
        }
        proof {
            assert(self.ids@.take(self.ids@.len() as int) == self.ids@);
            lemma_seq_difference(self@, other@);
        }
        IdSet { ids: kept }
    }

    /// Adds every id of `other` that the set lacks, in the order of `other`.
    pub fn extend(&mut self, other: &IdSet)
        requires
            old(self).wf(),
        ensures
            final(self).wf(),
            final(self)@ == seq_union(old(self)@, other@),
            final(self).as_set() == old(self).as_set().union(other.as_set()),
    {
        let mut i: usize = 0;
        while i < other.ids.len()
            invariant
                i <= other.ids@.len(),
                self.wf(),
                self@ == seq_union(old(self)@, other@.take(i as int)),
            decreases other.ids@.len() - i,
        {
            proof {
                assert(other@.take(i + 1).drop_last() == other@.take(i as int));
            }
            self.insert(other.ids[i]);
            i += 1;
        }
        proof {
            assert(other@.take(other@.len() as int) == other@);
            lemma_seq_union(old(self)@, other@);
        }
    }

    /// The ids of the set, each at the place where it first stands. A
    /// well-formed set is its own copy; one that is not comes out well-formed.
    pub fn distinct(&self) -> (set: IdSet)
        ensures
            set.wf(),
            set@ == seq_union(Seq::empty(), self@),
            self.wf() ==> set@ == self@,
            set.as_set() == self.as_set(),
    {
        let mut set = IdSet::new();
        set.extend(self);
        proof {
            lemma_seq_union(Seq::empty(), self@);
            assert(set.as_set() =~= self.as_set());
            if self.wf() {
                lemma_union_of_distinct(self@);
            }
        }
        set
    }

    /// The ids in insertion order.
    pub fn to_vec(&self) -> (ids: Vec<AssetId>)
        ensures
            ids@ == self@,
    {
        self.ids.clone()
    }
}

impl Clone for IdSet {
    fn clone(&self) -> (copy: IdSet)
        ensures
            copy@ == self@,
    {
        IdSet { ids: self.ids.clone() }
    }
}

} // verus!
