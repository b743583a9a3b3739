//! An unbounded FIFO linked queue with a sentinel front node.
//!
//! The queue is a singly linked, append-only chain.  `head` always refers
//! to a sentinel node that carries no payload; the items of the queue are
//! the payloads of the nodes behind it, front first.  A push links a fresh
//! node behind the last node of the chain; a pop advances `head` past the
//! old sentinel, takes the payload of the node that thereby becomes the new
//! sentinel, and drops the old sentinel's box.  A separate counter `len`
//! tracks the number of enqueued-but-not-yet-dequeued items.
//!
//! On a chain of this shape, concurrent consumers racing to advance the
//! front are a memory-reclamation hazard: a loser of the race could still
//! be reading the sentinel that the winner just freed.  This queue rules
//! that out by construction rather than documenting it away: every
//! operation takes the queue by exclusive reference, so pushes and pops
//! are serialized by Rust's ownership discipline, and a node's box is
//! dropped exactly once, after the node has been unlinked — no node is
//! ever reclaimed while still reachable.

use vstd::multiset::Multiset;
use vstd::prelude::*;

verus! {

/// One cell of the queue's chain: an optional payload slot and an optional
/// successor.  The payload is present for every node except the sentinel
/// and is taken out exactly once, the instant the node is dequeued.
pub struct Node<T> {
    pub item: Option<T>,
    pub next: Option<Box<Node<T>>>,
}

impl<T> Node<T> {
    /// The payloads held by the nodes strictly behind this one, front first.
    pub open spec fn items_behind(self) -> Seq<T>
        decreases self,
    {
        match self.next {
            None => Seq::empty(),
            Some(n) => match n.item {
                Some(x) => seq![x] + n.items_behind(),
                None => n.items_behind(),
            },
        }
    }

    /// Every node strictly behind this one still carries its payload.
    pub open spec fn wf_behind(self) -> bool
        decreases self,
    {
        match self.next {
            None => true,
            Some(n) => n.item is Some && n.wf_behind(),
        }
    }

    /// A node that carries `item` and has no successor yet.
    pub fn new(item: T) -> (n: Self)
        ensures
            n.item == Some(item),
            n.next is None,
    {
        Self { item: Some(item), next: None }
    }

    /// A payload-free node with no successor: the shape of a sentinel.
    pub fn new_empty() -> (n: Self)
        ensures
            n.item is None,
            n.next is None,
    {
        Self { item: None, next: None }
    }
}

/// An unbounded FIFO queue over a singly linked chain with a sentinel
/// front node.  Its abstract view is the sequence of enqueued payloads,
/// front first.
pub struct LinkedQueue<T> {
    len: usize,
    head: Option<Box<Node<T>>>,
}

impl<T> View for LinkedQueue<T> {
    type V = Seq<T>;

    closed spec fn view(&self) -> Seq<T> {
        match self.head {
            None => Seq::empty(),
            Some(h) => h.items_behind(),
        }
    }
}

impl<T> Default for LinkedQueue<T> {
    /// An empty queue: one sentinel node, no items, length zero.
    fn default() -> (q: Self)
        ensures
            q.wf(),
            q@ == Seq::<T>::empty(),
    {
        let header = Box::new(Node::new_empty());
        Self { len: 0, head: Some(header) }
    }
}

impl<T> LinkedQueue<T> {
    /// There is exactly one sentinel at the front, it carries no payload,
    /// every node behind it does, and `len` counts those payloads.
    pub closed spec fn wf(self) -> bool {
        match self.head {
            None => false,
            Some(h) => {
                &&& h.item is None
                &&& h.wf_behind()
                &&& self.len == h.items_behind().len()
            },
        }
    }

    /// An empty queue: one sentinel node, no items, length zero.
    pub fn new() -> (q: Self)
        ensures
            q.wf(),
            q@ == Seq::<T>::empty(),
    {
        Self::default()
    }

    /// True iff the item counter reads zero, which under this queue's
    /// exclusive-access discipline is exactly emptiness of the view.
    pub fn is_empty(&self) -> (r: bool)
        requires
            self.wf(),
        ensures
            r == (self@.len() == 0),
    {
        self.len == 0
    }

    /// Walks the chain to the one node whose successor slot is still
    /// empty and links `new_node` there.
    fn link_last(node: &mut Option<Box<Node<T>>>, new_node: Box<Node<T>>)
        requires
            old(node).is_some() ==> old(node).unwrap().wf_behind(),
            new_node.item is Some,
            new_node.next is None,
        ensures
            final(node).is_some(),
            old(node).is_none() ==> {
                &&& final(node).unwrap().item == new_node.item
                &&& final(node).unwrap().next is None
            },
            old(node).is_some() ==> {
                &&& final(node).unwrap().item == old(node).unwrap().item
                &&& final(node).unwrap().wf_behind()
                &&& final(node).unwrap().items_behind() == old(node).unwrap().items_behind().push(
                    new_node.item.unwrap(),
                )
            },
        decreases *old(node),
    {
        let ghost z = new_node.item.unwrap();
        match node.take() {
            None => {
                *node = Some(new_node);
            },
            Some(mut boxed) => {
                let ghost prev = *boxed;
                Self::link_last(&mut boxed.next, new_node);
                proof {
                    let linked = *boxed.next.unwrap();
                    if prev.next is None {
                        assert(prev.items_behind() == Seq::<T>::empty());
                        assert(linked.item == Some(z));
                        assert(linked.items_behind() == Seq::<T>::empty());
                        assert(linked.wf_behind());
                        assert(boxed.items_behind() =~= prev.items_behind().push(z));
                    } else {
                        let ghost c = *prev.next.unwrap();
                        assert(c.item is Some);
                        assert(prev.items_behind() == seq![c.item.unwrap()] + c.items_behind());
                        assert(linked.item == c.item);
                        assert(linked.items_behind() == c.items_behind().push(z));
                        assert(boxed.items_behind() == seq![c.item.unwrap()]
                            + c.items_behind().push(z));
                        assert(boxed.items_behind() =~= prev.items_behind().push(z));
                    }
                    assert(boxed.wf_behind());
                }
                *node = Some(boxed);
            },
        }
    }

    /// Allocates a node for `item`, links it behind the current last node,
    /// and counts it: the item is appended at the back of the view.
    pub fn push(&mut self, item: T)
        requires
            old(self).wf(),
            old(self)@.len() < usize::MAX,
        ensures
            final(self).wf(),
            final(self)@ == old(self)@.push(item),
    {
        let new_node = Box::new(Node::new(item));
        Self::link_last(&mut self.head, new_node);
        self.len = self.len + 1;
    }

    /// Removes and returns the front item, or `None` on an empty queue.
    /// The old sentinel is unlinked and dropped; the dequeued node's
    /// payload slot is emptied as it becomes the new sentinel.
    pub fn pop(&mut self) -> (r: Option<T>)
        requires
            old(self).wf(),
        ensures
            final(self).wf(),
            old(self)@.len() == 0 ==> r is None && final(self)@ == old(self)@,
            old(self)@.len() > 0 ==> {
                &&& r == Some(old(self)@.first())
                &&& final(self)@ == old(self)@.drop_first()
            },
    {
        if self.is_empty() {
            return None;
        }
        proof {
            assert(old(self)@.len() > 0);
        }
        let mut header = self.head.take().unwrap();
        let ghost h0 = *header;
        match header.next.take() {
            None => {
                // The chain is drained; unreachable here, since the counter
                // was just seen to be non-zero.
                proof {
                    assert(h0.items_behind() == Seq::<T>::empty());
                    assert(false);
                }
                self.head = Some(header);
                None
            },
            Some(mut succ) => {
                let ghost s0 = *succ;
                let data = succ.item.take();
                proof {
                    assert(old(self)@ == h0.items_behind());
                    assert(s0.item is Some);
                    assert(h0.items_behind() == seq![s0.item.unwrap()] + s0.items_behind());
                    assert(old(self)@.first() == s0.item.unwrap());
                    assert(succ.items_behind() == s0.items_behind());
                    assert(h0.wf_behind());
                    assert(s0.wf_behind());
                    assert(succ.wf_behind());
                    assert(old(self)@.drop_first() =~= s0.items_behind());
                }
                self.head = Some(succ);
                self.len = self.len - 1;
                data
            },
        }
    }
}

/// Length accounting.  By the contracts of `new`, `push` and `pop`, a
/// queue that started empty and took the pushes of `s` followed by `m`
/// pops has the view `s.skip(m)`: it holds exactly the pushed items less
/// the popped ones, and it is empty exactly when as many were popped as
/// pushed.
pub proof fn lemma_length_accounting<T>(s: Seq<T>, m: int)
    requires
        0 <= m <= s.len(),
    ensures
        s.skip(m).len() == s.len() - m,
        (s.skip(m).len() == 0) <==> (m == s.len()),
{
}

/// The items of a stack of producers' runs, taken together as a
/// multiset.
pub open spec fn runs_multiset<T>(runs: Seq<Seq<T>>) -> Multiset<T>
    decreases runs.len(),
{
    if runs.len() == 0 {
        Multiset::empty()
    } else {
        runs.first().to_multiset().add(runs_multiset(runs.drop_first()))
    }
}

/// How the pushes of any number of producers can land in one chain: the
/// combined sequence repeatedly takes the next item from the front of
/// some producer's remaining run, in any order.
pub open spec fn is_interleaving_of<T>(runs: Seq<Seq<T>>, s: Seq<T>) -> bool
    decreases s.len(),
{
    if s.len() == 0 {
        forall|r: int| 0 <= r < runs.len() ==> (#[trigger] runs[r]).len() == 0
    } else {
        exists|r: int|
            0 <= r < runs.len() && (#[trigger] runs[r]).len() > 0 && runs[r].first() == s.first()
                && is_interleaving_of(runs.update(r, runs[r].drop_first()), s.drop_first())
    }
}

/// Replacing one producer's run changes the combined multiset only by
/// what that run's items change.
proof fn lemma_runs_multiset_update<T>(runs: Seq<Seq<T>>, r: int, x: Seq<T>)
    requires
        0 <= r < runs.len(),
    ensures
        runs_multiset(runs.update(r, x)).add(runs[r].to_multiset()) == runs_multiset(runs).add(
            x.to_multiset(),
        ),
    decreases runs.len(),
{
    broadcast use vstd::multiset::group_multiset_axioms;

    if r == 0 {
        assert(runs.update(0, x).first() == x);
        assert(runs.update(0, x).drop_first() =~= runs.drop_first());
        assert(runs_multiset(runs.update(0, x)) == x.to_multiset().add(
            runs_multiset(runs.drop_first()),
        ));
        assert(runs_multiset(runs) == runs.first().to_multiset().add(
            runs_multiset(runs.drop_first()),
        ));
        assert(runs_multiset(runs.update(0, x)).add(runs[0].to_multiset()) =~= runs_multiset(
            runs,
        ).add(x.to_multiset()));
    } else {
        assert(runs.update(r, x).first() == runs.first());
        assert(runs.update(r, x).drop_first() =~= runs.drop_first().update(r - 1, x));
        lemma_runs_multiset_update(runs.drop_first(), r - 1, x);
        assert(runs.drop_first()[r - 1] == runs[r]);
        assert(runs_multiset(runs.update(r, x)) == runs.first().to_multiset().add(
            runs_multiset(runs.drop_first().update(r - 1, x)),
        ));
        assert(runs_multiset(runs) == runs.first().to_multiset().add(
            runs_multiset(runs.drop_first()),
        ));
        assert forall|e: T|
            runs_multiset(runs.update(r, x)).add(runs[r].to_multiset()).count(e) == runs_multiset(
                runs,
            ).add(x.to_multiset()).count(e) by {
            assert(runs_multiset(runs.drop_first().update(r - 1, x)).add(
                runs[r].to_multiset(),
            ).count(e) == runs_multiset(runs.drop_first()).add(x.to_multiset()).count(e));
        }
        assert(runs_multiset(runs.update(r, x)).add(runs[r].to_multiset()) =~= runs_multiset(
            runs,
        ).add(x.to_multiset()));
    }
}

/// A stack of exhausted runs holds nothing.
proof fn lemma_runs_multiset_all_empty<T>(runs: Seq<Seq<T>>)
    requires
        forall|r: int| 0 <= r < runs.len() ==> (#[trigger] runs[r]).len() == 0,
    ensures
        runs_multiset(runs) == Multiset::<T>::empty(),
    decreases runs.len(),
{
    broadcast use vstd::multiset::group_multiset_axioms;

    if runs.len() > 0 {
        lemma_to_multiset_empty(runs.first());
        assert forall|r: int|
            0 <= r < runs.drop_first().len() implies (#[trigger] runs.drop_first()[r]).len()
            == 0 by {
            assert(runs.drop_first()[r] == runs[r + 1]);
        }
        lemma_runs_multiset_all_empty(runs.drop_first());
        assert(runs_multiset(runs) =~= Multiset::<T>::empty());
    }
}

/// Taking a sequence apart at the front takes its multiset apart the
/// same way.
proof fn lemma_to_multiset_drop_first<T>(s: Seq<T>)
    requires
        s.len() > 0,
    ensures
        s.to_multiset() == s.drop_first().to_multiset().insert(s.first()),
{
    broadcast use vstd::seq_lib::group_to_multiset_ensures;
    broadcast use vstd::multiset::group_multiset_axioms;

    assert(s =~= seq![s.first()] + s.drop_first());
    vstd::seq_lib::lemma_multiset_commutative(seq![s.first()], s.drop_first());
    assert(seq![s.first()] =~= Seq::<T>::empty().push(s.first()));
    assert(Seq::<T>::empty().to_multiset() =~= Multiset::<T>::empty()) by {
        assert(forall|x: T| !(#[trigger] Seq::<T>::empty().contains(x)));
    }
    assert(s.to_multiset() =~= s.drop_first().to_multiset().insert(s.first()));
}

/// An empty sequence's multiset is empty.
proof fn lemma_to_multiset_empty<T>(s: Seq<T>)
    requires
        s.len() == 0,
    ensures
        s.to_multiset() == Multiset::<T>::empty(),
{
    broadcast use vstd::seq_lib::group_to_multiset_ensures;
    broadcast use vstd::multiset::group_multiset_axioms;

    assert(s =~= Seq::<T>::empty());
    assert(forall|x: T| !(#[trigger] s.contains(x)));
    assert(s.to_multiset() =~= Multiset::<T>::empty());
}

/// Multi-producer accounting.  However the pushes of any number of
/// producers interleave into the queue, the resulting view holds every
/// pushed item exactly as often as it was pushed — none lost, none
/// duplicated — while the relative order between different producers'
/// items is left open.
pub proof fn lemma_interleaving_multiset<T>(runs: Seq<Seq<T>>, s: Seq<T>)
    requires
        is_interleaving_of(runs, s),
    ensures
        s.to_multiset() == runs_multiset(runs),
    decreases s.len(),
{
    broadcast use vstd::multiset::group_multiset_axioms;

    if s.len() == 0 {
        lemma_to_multiset_empty::<T>(s);
        lemma_runs_multiset_all_empty::<T>(runs);
    } else {
        let r = choose|r: int|
            0 <= r < runs.len() && (#[trigger] runs[r]).len() > 0 && runs[r].first() == s.first()
                && is_interleaving_of(runs.update(r, runs[r].drop_first()), s.drop_first());
        let rest = runs.update(r, runs[r].drop_first());
        lemma_interleaving_multiset(rest, s.drop_first());
        lemma_to_multiset_drop_first(s);
        lemma_to_multiset_drop_first(runs[r]);
        lemma_runs_multiset_update(runs, r, runs[r].drop_first());
        assert forall|e: T|
            s.to_multiset().count(e) == runs_multiset(runs).count(e) by {
            assert(runs_multiset(rest).add(runs[r].to_multiset()).count(e) == runs_multiset(
                runs,
            ).add(runs[r].drop_first().to_multiset()).count(e));
        }
        assert(s.to_multiset() =~= runs_multiset(runs));
    }
}

/// Round trip.  An item pushed onto a queue whose view is `s` sits at
/// index `s.len()` of the new view, so by the contract of `pop` it is
/// returned unchanged by the pop that reaches it: the view after
/// `s.len()` further pops starts with exactly the pushed item.
pub proof fn lemma_round_trip<T>(s: Seq<T>, x: T)
    ensures
        s.push(x)[s.len() as int] == x,
        s.push(x).skip(s.len() as int).first() == x,
{
}

} // verus!
