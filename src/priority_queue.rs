use vstd::prelude::*;
use vstd::multiset::Multiset;

use crate::types::{lemma_order_facts, Priority};

verus! {

broadcast use vstd::seq_lib::group_to_multiset_ensures;

/// `p` is a greatest key of `m`.
pub open spec fn is_max(m: Multiset<Priority>, p: Priority) -> bool {
    m.count(p) > 0 && forall|q: Priority| #[trigger] m.count(q) > 0 ==> q.at_most(p)
}

/// The greatest key of a non-empty multiset of keys.
pub open spec fn top(m: Multiset<Priority>) -> Priority {
    choose|p: Priority| is_max(m, p)
}

/// A multiset has at most one greatest key, so `top` names it once one exists.
pub proof fn lemma_top_unique(m: Multiset<Priority>, p: Priority)
    requires
        is_max(m, p),
    ensures
        top(m) == p,
        is_max(m, top(m)),
{
    lemma_order_facts();
    let t = top(m);
    assert(is_max(m, t));
    assert(t.at_most(p) && p.at_most(t));
}

/// Every non-empty multiset of keys has a greatest key.
pub proof fn lemma_top_exists(m: Multiset<Priority>)
    requires
        m.len() > 0,
    ensures
        is_max(m, top(m)),
    decreases m.len(),
{
    lemma_order_facts();
    let x = m.choose();
    let rest = m.remove(x);
    if rest.len() == 0 {
        assert forall|q: Priority| #[trigger] m.count(q) > 0 implies q.at_most(x) by {
            if q != x {
                assert(rest.count(q) > 0);
            }
        }
        lemma_top_unique(m, x);
    } else {
        lemma_top_exists(rest);
        let y = top(rest);
        let z = if x.at_most(y) {
            y
        } else {
            x
        };
        assert forall|q: Priority| #[trigger] m.count(q) > 0 implies q.at_most(z) by {
            if q != x {
                assert(rest.count(q) > 0);
                assert(q.at_most(y));
            }
        }
        lemma_top_unique(m, z);
    }
}

/// A max-ordering structure over priority keys: `pop` and `peek` give the
/// greatest key.
pub struct PriorityQueue {
    keys: Vec<Priority>,
}

impl View for PriorityQueue {
    type V = Multiset<Priority>;

    closed spec fn view(&self) -> Multiset<Priority> {
        self.keys@.to_multiset()
    }
}

impl PriorityQueue {
    /// An empty structure.
    pub fn new() -> (r: PriorityQueue)
        ensures
            r@ == Multiset::<Priority>::empty(),
    {
        let r = PriorityQueue { keys: Vec::new() };
        assert(r.keys@.to_multiset() =~= Multiset::<Priority>::empty()) by {
            assert(r.keys@.len() == 0);
        }
        r
    }

    /// The number of keys held.
    pub fn len(&self) -> (r: usize)
        ensures
            r == self@.len(),
    {
        self.keys.len()
    }

    /// Whether no key is held.
    pub fn is_empty(&self) -> (r: bool)
        ensures
            r == (self@.len() == 0),
    {
        self.keys.len() == 0
    }

    /// Adds one key.
    pub fn push(&mut self, p: Priority)
        ensures
            final(self)@ == old(self)@.insert(p),
    {
        self.keys.push(p);
    }

    /// The position of a greatest key.
    fn max_index(&self) -> (r: usize)
        requires
            self.keys@.len() > 0,
        ensures
            r < self.keys@.len(),
            is_max(self@, self.keys@[r as int]),
    {
        proof {
            lemma_order_facts();
        }
        let mut best: usize = 0;
        let mut i: usize = 1;
        while i < self.keys.len()
            invariant
                0 <= best < i <= self.keys@.len(),
                forall|k: int| 0 <= k < i ==> (#[trigger] self.keys@[k]).at_most(self.keys@[best as int]),
            decreases self.keys@.len() - i,
        {
            if self.keys[best].is_lower_than(&self.keys[i]) {
                best = i;
            }
            i = i + 1;
        }
        proof {
            let s = self.keys@;
            assert forall|q: Priority| #[trigger] s.to_multiset().count(q) > 0 implies q.at_most(
                s[best as int],
            ) by {
                assert(s.contains(q));
                let k = choose|k: int| 0 <= k < s.len() && s[k] == q;
                assert(s[k].at_most(s[best as int]));
            }
            assert(s.contains(s[best as int]));
        }
        best
    }

    /// The greatest key, or `None` when empty.
    pub fn peek(&self) -> (r: Option<Priority>)
        ensures
            self@.len() == 0 ==> r is None,
            self@.len() > 0 ==> r == Some(top(self@)) && is_max(self@, top(self@)),
    {
        if self.keys.len() == 0 {
            None
        } else {
            let i = self.max_index();
            proof {
                lemma_top_unique(self@, self.keys@[i as int]);
            }
            Some(self.keys[i])
        }
    }

    /// Removes and returns the greatest key, or returns `None` and changes
    /// nothing when empty.
    pub fn pop(&mut self) -> (r: Option<Priority>)
        ensures
            old(self)@.len() == 0 ==> r is None && final(self)@ == old(self)@,
            old(self)@.len() > 0 ==> {
                &&& r == Some(top(old(self)@))
                &&& is_max(old(self)@, top(old(self)@))
                &&& final(self)@ == old(self)@.remove(top(old(self)@))
            },
    {
        if self.keys.len() == 0 {
            None
        } else {
            let i = self.max_index();
            proof {
                lemma_top_unique(self@, self.keys@[i as int]);
            }
            let p = self.keys.remove(i);
            Some(p)
        }
    }
}

} // verus!
