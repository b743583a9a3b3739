//! A single-threaded skip list keyed by `usize` with `i32` values.
//!
//! The list keeps a fixed stack of levels.  The base level holds every
//! entry in strictly increasing key order; each higher level holds a
//! sparser copy of some entries and serves as an acceleration lane for
//! lookups.  How many lanes a fresh entry occupies is decided by coin
//! flips, except that the very first entry fills every lane.
//!
//! The abstract view is the partial mapping from keys to values held by
//! the base level, written with the `lookup` specification function.

use vstd::prelude::*;

verus! {

/// One stored entry: a key paired with its value.  Each level of the
/// list that an entry occupies holds its own copy of the pair.
#[derive(Clone, Copy, Debug)]
pub struct Node {
    pub key: usize,
    pub value: i32,
}

impl Node {
    /// An entry pairing `key` with `value`.
    pub fn new(key: usize, value: i32) -> (n: Self)
        ensures
            n.key == key,
            n.value == value,
    {
        Self { key, value }
    }

    /// A heap-allocated entry pairing `key` with `value`.
    pub fn new_ref_node(key: usize, value: i32) -> (n: Box<Node>)
        ensures
            n.key == key,
            n.value == value,
    {
        Box::new(Node::new(key, value))
    }

    /// Moves an already-built entry onto the heap.
    pub fn new_with_node(node: Node) -> (n: Box<Node>)
        ensures
            n.key == node.key,
            n.value == node.value,
    {
        Box::new(node)
    }
}

/// The value stored for `key` in the run of entries `s`, front first:
/// the first entry whose key matches, if any.
pub open spec fn lookup(s: Seq<Node>, key: usize) -> Option<i32>
    decreases s.len(),
{
    if s.len() == 0 {
        None
    } else if s.first().key == key {
        Some(s.first().value)
    } else {
        lookup(s.drop_first(), key)
    }
}

/// The entries of `s` are in strictly increasing key order, so in
/// particular no key occurs twice.
pub open spec fn sorted(s: Seq<Node>) -> bool {
    forall|a: int, b: int| #![trigger s[a], s[b]] 0 <= a < b < s.len() ==> s[a].key < s[b].key
}

/// Where `lookup` answers `Some`, an entry with that key and value sits at
/// some index; where it answers `None`, no entry carries the key.
proof fn lemma_lookup_index(s: Seq<Node>, key: usize)
    ensures
        (match lookup(s, key) {
            Some(v) => exists|i: int|
                0 <= i < s.len() && (#[trigger] s[i].key) == key && s[i].value == v,
            None => forall|i: int| 0 <= i < s.len() ==> (#[trigger] s[i].key) != key,
        }),
    decreases s.len(),
{
    if s.len() == 0 {
    } else if s.first().key == key {
        assert(s[0].key == key && s[0].value == s.first().value);
    } else {
        lemma_lookup_index(s.drop_first(), key);
        match lookup(s, key) {
            Some(v) => {
                let j = choose|j: int|
                    0 <= j < s.drop_first().len() && (#[trigger] s.drop_first()[j].key) == key
                        && s.drop_first()[j].value == v;
                assert(s[j + 1] == s.drop_first()[j]);
            },
            None => {
                assert forall|i: int| 0 <= i < s.len() implies (#[trigger] s[i].key) != key by {
                    if i > 0 {
                        assert(s.drop_first()[i - 1] == s[i]);
                    }
                }
            },
        }
    }
}

/// In a sorted run, `lookup` on the key of the entry at index `i` answers
/// exactly that entry's value.
proof fn lemma_lookup_from_index(s: Seq<Node>, i: int)
    requires
        sorted(s),
        0 <= i < s.len(),
    ensures
        lookup(s, s[i].key) == Some(s[i].value),
    decreases s.len(),
{
    if i > 0 {
        assert(s[0].key < s[i].key);
        assert(sorted(s.drop_first())) by {
            assert forall|a: int, b: int| #![trigger s.drop_first()[a], s.drop_first()[b]]
                0 <= a < b < s.drop_first().len() implies s.drop_first()[a].key
                < s.drop_first()[b].key by {
                assert(s.drop_first()[a] == s[a + 1]);
                assert(s.drop_first()[b] == s[b + 1]);
            }
        }
        lemma_lookup_from_index(s.drop_first(), i - 1);
        assert(s.drop_first()[i - 1] == s[i]);
    }
}

/// Splicing a fresh-keyed entry into a run binds its key to its value and
/// leaves every other key's `lookup` unchanged.
proof fn lemma_lookup_insert(s: Seq<Node>, i: int, node: Node)
    requires
        0 <= i <= s.len(),
        forall|j: int| 0 <= j < s.len() ==> (#[trigger] s[j].key) != node.key,
    ensures
        lookup(s.insert(i, node), node.key) == Some(node.value),
        forall|k: usize|
            k != node.key ==> #[trigger] lookup(s.insert(i, node), k) == lookup(s, k),
    decreases s.len(),
{
    let t = s.insert(i, node);
    s.insert_ensures(i, node);
    if i == 0 {
        assert(t.first() == node);
        assert(t.drop_first() =~= s);
        assert forall|k: usize| k != node.key implies #[trigger] lookup(t, k) == lookup(
            s,
            k,
        ) by {
            assert(lookup(t, k) == lookup(t.drop_first(), k));
        }
    } else {
        assert(t.first() == s.first());
        assert(t.drop_first() =~= s.drop_first().insert(i - 1, node)) by {
            s.drop_first().insert_ensures(i - 1, node);
            assert forall|m: int|
                0 <= m < t.drop_first().len() implies t.drop_first()[m] == s.drop_first().insert(
                i - 1,
                node,
            )[m] by {
                assert(t.drop_first()[m] == t[m + 1]);
                if m < i - 1 {
                    assert(t[m + 1] == s[m + 1]);
                    assert(s.drop_first()[m] == s[m + 1]);
                } else if m == i - 1 {
                } else {
                    assert(t[m + 1] == s[m]);
                    assert(s.drop_first()[m - 1] == s[m]);
                }
            }
        }
        assert forall|j: int|
            0 <= j < s.drop_first().len() implies (#[trigger] s.drop_first()[j].key)
            != node.key by {
            assert(s.drop_first()[j] == s[j + 1]);
        }
        lemma_lookup_insert(s.drop_first(), i - 1, node);
        assert(s[0].key != node.key);
        assert(lookup(t, node.key) == lookup(t.drop_first(), node.key));
        assert forall|k: usize| k != node.key implies #[trigger] lookup(t, k) == lookup(
            s,
            k,
        ) by {
            if s.first().key != k {
                assert(lookup(t, k) == lookup(t.drop_first(), k));
                assert(lookup(s, k) == lookup(s.drop_first(), k));
            }
        }
    }
}

/// The first index of `v` whose key is not below `key`; `v.len()` when
/// every key is below it.
fn find_pos(v: &Vec<Node>, key: usize) -> (pos: usize)
    requires
        sorted(v@),
    ensures
        pos <= v@.len(),
        forall|j: int| 0 <= j < pos ==> (#[trigger] v@[j].key) < key,
        pos < v@.len() ==> v@[pos as int].key >= key,
{
    let mut i: usize = 0;
    while i < v.len()
        invariant
            i <= v@.len(),
            forall|j: int| 0 <= j < i ==> (#[trigger] v@[j].key) < key,
        decreases v@.len() - i,
    {
        if v[i].key >= key {
            return i;
        }
        i = i + 1;
    }
    i
}

/// Splices `node` into the sorted run `v` at its key's position.
fn insert_sorted(v: &mut Vec<Node>, node: Node)
    requires
        sorted(old(v)@),
        lookup(old(v)@, node.key) is None,
    ensures
        sorted(final(v)@),
        final(v)@.len() == old(v)@.len() + 1,
        lookup(final(v)@, node.key) == Some(node.value),
        forall|k: usize|
            k != node.key ==> #[trigger] lookup(final(v)@, k) == lookup(old(v)@, k),
        forall|i: int|
            0 <= i < final(v)@.len() ==> (final(v)@[i] == node || old(v)@.contains(
                #[trigger] final(v)@[i],
            )),
{
    let pos = find_pos(v, node.key);
    proof {
        lemma_lookup_index(v@, node.key);
    }
    v.insert(pos, node);
    proof {
        let s = old(v)@;
        s.insert_ensures(pos as int, node);
        assert forall|a: int, b: int| #![trigger v@[a], v@[b]]
            0 <= a < b < v@.len() implies v@[a].key < v@[b].key by {
            if b < pos {
                assert(v@[a] == s[a] && v@[b] == s[b]);
            } else if a < pos && b == pos {
                assert(v@[a] == s[a]);
            } else if a < pos {
                assert(v@[a] == s[a] && v@[b] == s[b - 1]);
            } else if a == pos {
                assert(v@[b] == s[b - 1]);
                assert(s[b - 1].key >= node.key);
                assert(s[b - 1].key != node.key);
            } else {
                assert(v@[a] == s[a - 1] && v@[b] == s[b - 1]);
            }
        }
        lemma_lookup_insert(s, pos as int, node);
        assert forall|i: int|
            0 <= i < v@.len() implies (v@[i] == node || s.contains(#[trigger] v@[i])) by {
            if i < pos {
                assert(v@[i] == s[i]);
            } else if i > pos {
                assert(v@[i] == s[i - 1]);
            }
        }
    }
}

/// The index of an entry of `v` carrying `key`, if one exists.
fn scan_level(v: &Vec<Node>, key: usize) -> (r: Option<usize>)
    ensures
        (match r {
            Some(idx) => idx < v@.len() && v@[idx as int].key == key,
            None => forall|i: int| 0 <= i < v@.len() ==> (#[trigger] v@[i].key) != key,
        }),
{
    let mut i: usize = 0;
    while i < v.len()
        invariant
            i <= v@.len(),
            forall|j: int| 0 <= j < i ==> (#[trigger] v@[j].key) != key,
        decreases v@.len() - i,
    {
        if v[i].key == key {
            return Some(i);
        }
        i = i + 1;
    }
    None
}

/// A leveled skip list.  `levels[0]` is the base lane holding every
/// entry; higher lanes hold sparser copies.  `max_level` is the index of
/// the topmost lane.
pub struct SkipList {
    levels: Vec<Vec<Node>>,
    max_level: usize,
}

/// Relies on rand::random::<bool>: a coin flip; nothing is promised of
/// the result.
#[verifier::external_body]
fn coin_flip() -> bool {
    rand::random::<bool>()
}

impl SkipList {
    /// Every lane is sorted, and every entry of a higher lane agrees with
    /// the base lane's binding for its key.
    pub closed spec fn wf(self) -> bool {
        &&& self.levels@.len() == self.max_level + 1
        &&& forall|l: int| 0 <= l < self.levels@.len() ==> sorted(#[trigger] self.levels@[l]@)
        &&& forall|l: int, i: int|
            #![trigger self.levels@[l]@[i]]
            1 <= l < self.levels@.len() && 0 <= i < self.levels@[l]@.len() ==> lookup(
                self.levels@[0]@,
                self.levels@[l]@[i].key,
            ) == Some(self.levels@[l]@[i].value)
    }

    /// The binding the list holds for `key`, if any.
    pub closed spec fn spec_find(self, key: usize) -> Option<i32> {
        lookup(self.levels@[0]@, key)
    }

    /// An empty list with `max_level` lanes, the topmost at index
    /// `max_level - 1`.
    pub fn new(max_level: usize) -> (s: Self)
        requires
            1 <= max_level,
        ensures
            s.wf(),
            forall|k: usize| #[trigger] s.spec_find(k) is None,
    {
        let mut levels: Vec<Vec<Node>> = Vec::new();
        let mut i: usize = 0;
        while i < max_level
            invariant
                i <= max_level,
                levels@.len() == i,
                forall|j: int| 0 <= j < i ==> (#[trigger] levels@[j]@).len() == 0,
            decreases max_level - i,
        {
            levels.push(Vec::new());
            i = i + 1;
        }
        Self { levels, max_level: max_level - 1 }
    }

    /// Tosses coins to pick how many lanes above the base a fresh entry
    /// will occupy, capped at the topmost lane.
    fn random_level(&self) -> (r: usize)
        ensures
            r <= self.max_level,
    {
        let mut n: usize = 0;
        let mut go = coin_flip();
        while go && n < self.max_level
            invariant
                n <= self.max_level,
            decreases self.max_level - n,
        {
            n = n + 1;
            go = coin_flip();
        }
        n
    }

    /// Binds `key` to `value`.  The key must be fresh: the list never
    /// stores one key twice.  The first entry fills every lane; later
    /// entries occupy the base lane and a coin-flipped number of lanes
    /// above it.
    pub fn insert(&mut self, key: usize, value: i32)
        requires
            old(self).wf(),
            old(self).spec_find(key) is None,
        ensures
            final(self).wf(),
            final(self).spec_find(key) == Some(value),
            forall|k: usize|
                k != key ==> #[trigger] final(self).spec_find(k) == old(self).spec_find(k),
    {
        let top: usize = if self.levels[0].is_empty() {
            self.max_level
        } else {
            self.random_level()
        };
        let node = Node::new(key, value);
        let nlevels = self.levels.len();
        let ghost old_levels = self.levels@;
        let mut lvl: usize = 0;
        while lvl <= top
            invariant
                self.levels@.len() == nlevels,
                top < nlevels,
                old(self).wf(),
                old(self).spec_find(key) is None,
                self.max_level == old(self).max_level,
                old_levels == old(self).levels@,
                self.levels@.len() == old_levels.len(),
                top <= self.max_level,
                lvl <= top + 1,
                node.key == key && node.value == value,
                forall|l: int|
                    lvl <= l < self.levels@.len() ==> #[trigger] self.levels@[l]
                        == old_levels[l],
                forall|l: int| 0 <= l < lvl ==> sorted(#[trigger] self.levels@[l]@),
                forall|l: int|
                    0 <= l < lvl ==> #[trigger] lookup(self.levels@[l]@, key) == Some(value),
                forall|l: int, k: usize|
                    0 <= l < lvl && k != key ==> #[trigger] lookup(self.levels@[l]@, k)
                        == lookup(old_levels[l]@, k),
                forall|l: int, i: int|
                    #![trigger self.levels@[l]@[i]]
                    0 <= l < lvl && 0 <= i < self.levels@[l]@.len() ==> (self.levels@[l]@[i]
                        == node || old_levels[l]@.contains(self.levels@[l]@[i])),
            decreases top + 1 - lvl,
        {
            proof {
                if lvl > 0 {
                    lemma_lookup_index(self.levels@[lvl as int]@, key);
                }
            }
            insert_sorted(&mut self.levels[lvl], node);
            lvl = lvl + 1;
        }
        proof {
            assert forall|l: int|
                0 <= l < self.levels@.len() implies sorted(#[trigger] self.levels@[l]@) by {
                if l >= lvl {
                    assert(self.levels@[l] == old_levels[l]);
                }
            }
            assert forall|l: int, i: int|
                #![trigger self.levels@[l]@[i]]
                1 <= l < self.levels@.len() && 0 <= i < self.levels@[l]@.len() implies lookup(
                self.levels@[0]@,
                self.levels@[l]@[i].key,
            ) == Some(self.levels@[l]@[i].value) by {
                let e = self.levels@[l]@[i];
                if l < lvl && e == node {
                } else {
                    if l < lvl {
                        assert(old_levels[l]@.contains(e));
                    } else {
                        assert(self.levels@[l] == old_levels[l]);
                        assert(old_levels[l]@.contains(e));
                    }
                    let j = choose|j: int|
                        0 <= j < old_levels[l]@.len() && old_levels[l]@[j] == e;
                    assert(lookup(old_levels[0]@, e.key) == Some(e.value));
                    assert(e.key != key);
                }
            }
        }
    }

    /// Looks `key` up, trying the lanes from the sparsest down to the
    /// base: the answer is exactly the binding the list holds for `key`.
    pub fn find(&self, key: usize) -> (r: Option<i32>)
        requires
            self.wf(),
        ensures
            r == self.spec_find(key),
    {
        let mut lvl: usize = self.levels.len() - 1;
        loop
            invariant
                self.wf(),
                lvl < self.levels@.len(),
            decreases lvl,
        {
            let hit = scan_level(&self.levels[lvl], key);
            if let Some(idx) = hit {
                let found = self.levels[lvl][idx].value;
                proof {
                    if lvl == 0 {
                        lemma_lookup_from_index(self.levels@[0]@, idx as int);
                    }
                }
                return Some(found);
            }
            if lvl == 0 {
                proof {
                    lemma_lookup_index(self.levels@[0]@, key);
                }
                return None;
            }
            lvl = lvl - 1;
        }
    }
}

} // verus!
