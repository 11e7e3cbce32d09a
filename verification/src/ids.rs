//! Sets of chunk ids, and the ids that each file contributes.
use vstd::hash_map::StringHashMap;
use vstd::hash_set::StringHashSet;
use vstd::prelude::*;

use crate::text;

verus! {

/// A set of ids that can be listed.
pub struct IdSet {
    members: StringHashSet,
    /// Every member, and possibly some that have left, in order of arrival.
    order: Vec<String>,
}

impl View for IdSet {
    type V = Set<Seq<char>>;

    closed spec fn view(&self) -> Set<Seq<char>> {
        self.members@
    }
}

impl IdSet {
    /// The set is finite and each member stands in the list of arrivals.
    pub closed spec fn wf(self) -> bool {
        &&& self.members@.finite()
        &&& forall|k: Seq<char>| #[trigger]
            self.members@.contains(k) ==> text::texts(self.order@).contains(k)
    }

    /// A well-formed set is finite.
    pub broadcast proof fn lemma_finite(self)
        requires
            #[trigger] self.wf(),
        ensures
            self@.finite(),
    {
    }

    /// The empty set.
    pub fn new() -> (r: IdSet)
        ensures
            r.wf(),
            r@ == Set::<Seq<char>>::empty(),
    {
        IdSet { members: StringHashSet::new(), order: Vec::new() }
    }

    /// Adds an id; says whether it is new.
    pub fn insert(&mut self, id: String) -> (fresh: bool)
        requires
            old(self).wf(),
        ensures
            final(self).wf(),
            final(self)@ == old(self)@.insert(id@),
            fresh == !old(self)@.contains(id@),
    {
        let copy = id.clone();
        let fresh = self.members.insert(id);
        let ghost before = self.order@;
        if fresh {
            self.order.push(copy);
            proof {
                lemma_push_contains(before, copy);
            }
        }
        fresh
    }

    /// Takes an id out; says whether it was there.
    pub fn remove(&mut self, id: &str) -> (was: bool)
        requires
            old(self).wf(),
        ensures
            final(self).wf(),
            final(self)@ == old(self)@.remove(id@),
            was == old(self)@.contains(id@),
    {
        self.members.remove(id)
    }

    /// Whether the id is a member.
    pub fn contains(&self, id: &str) -> (r: bool)
        ensures
            r == self@.contains(id@),
    {
        self.members.contains(id)
    }

    /// The number of members.
    pub fn len(&self) -> (n: usize)
        ensures
            n == self@.len(),
    {
        self.members.len()
    }

    /// Whether there is no member.
    pub fn is_empty(&self) -> (r: bool)
        requires
            self.wf(),
        ensures
            r == (self@.len() == 0),
            r == (self@ == Set::<Seq<char>>::empty()),
    {
        let n: usize = self.members.len();
        proof {
            if n == 0 {
                self@.lemma_len0_is_empty();
            }
        }
        n == 0
    }

    /// The members, each once.
    pub fn to_vec(&self) -> (r: Vec<String>)
        requires
            self.wf(),
        ensures
            text::texts(r@).no_duplicates(),
            forall|k: Seq<char>| #[trigger] text::texts(r@).contains(k) <==> self@.contains(k),
            r@.len() == self@.len(),
    {
        let mut seen = StringHashSet::new();
        let mut r: Vec<String> = Vec::new();
        let mut i: usize = 0;
        let ghost arrivals = text::texts(self.order@);
        while i < self.order.len()
            invariant
                self.wf(),
                arrivals == text::texts(self.order@),
                i <= self.order@.len(),
                seen@.finite(),
                r@.len() == seen@.len(),
                text::texts(r@).no_duplicates(),
                forall|k: Seq<char>| #[trigger] text::texts(r@).contains(k) <==> seen@.contains(k),
                forall|k: Seq<char>| #[trigger] seen@.contains(k) ==> self@.contains(k),
                forall|j: int|
                    0 <= j < i && self@.contains(#[trigger] arrivals[j]) ==> seen@.contains(
                        arrivals[j],
                    ),
            decreases self.order@.len() - i,
        {
            let id = &self.order[i];
            proof {
                assert(arrivals[i as int] == id@);
            }
            if self.members.contains(id.as_str()) && !seen.contains(id.as_str()) {
                let ghost before = r@;
                proof {
                    assert(!text::texts(before).contains(id@));
                }
                seen.insert(id.clone());
                r.push(id.clone());
                proof {
                    lemma_push_contains(before, r@.last());
                    assert(text::texts(r@) =~= text::texts(before).push(id@));
                }
            }
            i = i + 1;
        }
        proof {
            assert forall|k: Seq<char>| self@.contains(k) implies #[trigger] text::texts(
                r@,
            ).contains(k) by {
                assert(arrivals.contains(k));
                let j = choose|j: int| 0 <= j < arrivals.len() && arrivals[j] == k;
                assert(seen@.contains(arrivals[j]));
            }
            assert(seen@ =~= self@) by {
                assert forall|k: Seq<char>| seen@.contains(k) == self@.contains(k) by {
                    assert(text::texts(r@).contains(k) <==> seen@.contains(k));
                }
            }
        }
        r
    }

    /// The same set again.
    pub fn duplicate(&self) -> (r: IdSet)
        requires
            self.wf(),
        ensures
            r.wf(),
            r@ == self@,
    {
        let list = self.to_vec();
        IdSet::of(&list)
    }

    /// The set of the ids of a list.
    pub fn of(list: &Vec<String>) -> (r: IdSet)
        ensures
            r.wf(),
            r@ == text::texts(list@).to_set(),
    {
        let mut r = IdSet::new();
        let mut i: usize = 0;
        let ghost all = text::texts(list@);
        proof {
            assert(all.take(0).to_set() =~= Set::<Seq<char>>::empty());
        }
        while i < list.len()
            invariant
                r.wf(),
                all == text::texts(list@),
                i <= list@.len(),
                r@ == all.take(i as int).to_set(),
            decreases list@.len() - i,
        {
            r.insert(list[i].clone());
            proof {
                assert(all[i as int] == list@[i as int]@);
                lemma_to_set_step(all, i as int);
            }
            i = i + 1;
        }
        proof {
            assert(all.take(list@.len() as int) =~= all);
        }
        r
    }
}

pub proof fn lemma_to_set_step(s: Seq<Seq<char>>, i: int)
    requires
        0 <= i < s.len(),
    ensures
        s.take(i + 1).to_set() == s.take(i).to_set().insert(s[i]),
{
    let a = s.take(i);
    let b = s.take(i + 1);
    assert(b =~= a.push(s[i]));
    assert forall|k: Seq<char>| b.to_set().contains(k) == a.to_set().insert(s[i]).contains(k) by {
        if b.contains(k) {
            let j = choose|j: int| 0 <= j < b.len() && b[j] == k;
            if j < i {
                assert(a[j] == k);
            }
        }
        if a.contains(k) {
            let j = choose|j: int| 0 <= j < a.len() && a[j] == k;
            assert(b[j] == k);
        }
        if k == s[i] {
            assert(b[i] == k);
        }
    }
    assert(b.to_set() =~= a.to_set().insert(s[i]));
}

proof fn lemma_push_contains(v: Seq<String>, x: String)
    ensures
        text::texts(v.push(x)).contains(x@),
        forall|k: Seq<char>|
            #![trigger text::texts(v.push(x)).contains(k)]
            #![trigger text::texts(v).contains(k)]
            text::texts(v.push(x)).contains(k) <==> text::texts(v).contains(k) || k == x@,
{
    let a = text::texts(v);
    let b = text::texts(v.push(x));
    assert(b[v.len() as int] == x@);
    assert forall|k: Seq<char>| b.contains(k) <==> #[trigger] a.contains(k) || k == x@ by {
        if a.contains(k) {
            let j = choose|j: int| 0 <= j < a.len() && a[j] == k;
            assert(b[j] == k);
        }
        if b.contains(k) {
            let j = choose|j: int| 0 <= j < b.len() && b[j] == k;
            if j < a.len() {
                assert(a[j] == k);
            }
        }
    }
}

/// The ids that each file contributes, by relative path.
pub struct PathIds {
    map: StringHashMap<IdSet>,
    /// Every path of the map, and possibly some that have left, in order of arrival.
    order: Vec<String>,
}

impl View for PathIds {
    type V = Map<Seq<char>, Set<Seq<char>>>;

    closed spec fn view(&self) -> Map<Seq<char>, Set<Seq<char>>> {
        Map::new(|k: Seq<char>| self.map@.contains_key(k), |k: Seq<char>| self.map@[k]@)
    }
}

impl PathIds {
    /// The map is finite, its sets are well-formed, and each path stands in the list
    /// of arrivals.
    pub closed spec fn wf(self) -> bool {
        &&& self.map@.dom().finite()
        &&& forall|k: Seq<char>| #[trigger]
            self.map@.contains_key(k) ==> self.map@[k].wf() && text::texts(self.order@).contains(k)
    }

    /// A well-formed map has finitely many paths, each with a finite set.
    pub broadcast proof fn lemma_finite(self)
        requires
            #[trigger] self.wf(),
        ensures
            self@.dom().finite(),
            forall|k: Seq<char>| #[trigger] self@.contains_key(k) ==> self@[k].finite(),
    {
        assert(self@.dom() =~= self.map@.dom());
        assert forall|k: Seq<char>| #[trigger] self@.contains_key(k) implies self@[k].finite() by {
            assert(self.map@.contains_key(k));
            self.map@[k].lemma_finite();
        }
    }

    /// No file.
    pub fn new() -> (r: PathIds)
        ensures
            r.wf(),
            r@ == Map::<Seq<char>, Set<Seq<char>>>::empty(),
    {
        let r = PathIds { map: StringHashMap::new(), order: Vec::new() };
        proof {
            assert(r@ =~= Map::<Seq<char>, Set<Seq<char>>>::empty());
        }
        r
    }

    /// The ids of a file.
    pub fn get(&self, path: &str) -> (r: Option<&IdSet>)
        requires
            self.wf(),
        ensures
            match r {
                Some(ids) => self@.contains_key(path@) && ids@ == self@[path@] && ids.wf(),
                None => !self@.contains_key(path@),
            },
    {
        self.map.get(path)
    }

    /// Whether a file contributes.
    pub fn contains_key(&self, path: &str) -> (r: bool)
        ensures
            r == self@.contains_key(path@),
    {
        self.map.contains_key(path)
    }

    /// The number of files.
    pub fn len(&self) -> (n: usize)
        ensures
            n == self@.dom().len(),
    {
        proof {
            assert(self@.dom() =~= self.map@.dom());
        }
        self.map.len()
    }

    /// Gives a file a set of ids, in place of any it had.
    pub fn insert(&mut self, path: String, ids: IdSet)
        requires
            old(self).wf(),
            ids.wf(),
        ensures
            final(self).wf(),
            final(self)@ == old(self)@.insert(path@, ids@),
    {
        let copy = path.clone();
        let ghost before = self.order@;
        self.map.insert(path, ids);
        self.order.push(copy);
        proof {
            lemma_push_contains(before, copy);
            assert(self@ =~= old(self)@.insert(path@, ids@));
        }
    }

    /// Takes a file out.
    pub fn remove(&mut self, path: &str)
        requires
            old(self).wf(),
        ensures
            final(self).wf(),
            final(self)@ == old(self)@.remove(path@),
    {
        self.map.remove(path);
        proof {
            assert(self@ =~= old(self)@.remove(path@));
        }
    }

    /// Adds an id to those of a file.
    pub fn add_id(&mut self, path: String, id: String)
        requires
            old(self).wf(),
        ensures
            final(self).wf(),
            final(self)@ == old(self)@.insert(
                path@,
                (if old(self)@.contains_key(path@) {
                    old(self)@[path@]
                } else {
                    Set::empty()
                }).insert(id@),
            ),
    {
        let mut ids = match self.get(path.as_str()) {
            Some(s) => s.duplicate(),
            None => IdSet::new(),
        };
        ids.insert(id);
        self.insert(path, ids);
    }

    /// The paths, each once.
    pub fn keys(&self) -> (r: Vec<String>)
        requires
            self.wf(),
        ensures
            text::texts(r@).no_duplicates(),
            forall|k: Seq<char>| #[trigger]
                text::texts(r@).contains(k) <==> self@.contains_key(k),
    {
        let mut seen = StringHashSet::new();
        let mut r: Vec<String> = Vec::new();
        let mut i: usize = 0;
        let ghost arrivals = text::texts(self.order@);
        while i < self.order.len()
            invariant
                self.wf(),
                arrivals == text::texts(self.order@),
                i <= self.order@.len(),
                text::texts(r@).no_duplicates(),
                forall|k: Seq<char>| #[trigger] text::texts(r@).contains(k) <==> seen@.contains(k),
                forall|k: Seq<char>| #[trigger] seen@.contains(k) ==> self@.contains_key(k),
                forall|j: int|
                    0 <= j < i && self@.contains_key(#[trigger] arrivals[j]) ==> seen@.contains(
                        arrivals[j],
                    ),
            decreases self.order@.len() - i,
        {
            let path = &self.order[i];
            proof {
                assert(arrivals[i as int] == path@);
            }
            if self.map.contains_key(path.as_str()) && !seen.contains(path.as_str()) {
                let ghost before = r@;
                proof {
                    assert(!text::texts(before).contains(path@));
                }
                seen.insert(path.clone());
                r.push(path.clone());
                proof {
                    lemma_push_contains(before, r@.last());
                    assert(text::texts(r@) =~= text::texts(before).push(path@));
                }
            }
            i = i + 1;
        }
        proof {
            assert forall|k: Seq<char>| self@.contains_key(k) implies #[trigger] text::texts(
                r@,
            ).contains(k) by {
                assert(self.map@.contains_key(k));
                assert(arrivals.contains(k));
                let j = choose|j: int| 0 <= j < arrivals.len() && arrivals[j] == k;
                assert(seen@.contains(arrivals[j]));
            }
        }
        r
    }
}

} // verus!
