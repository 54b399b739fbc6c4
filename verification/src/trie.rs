//! A map from byte strings to token ids, stored as a trie.
//!
//! Each node may carry the id of the byte string that ends there, and lists
//! its children as (byte, node) pairs.  A lookup follows, at every level, the
//! first child whose byte matches.
use vstd::prelude::*;

verus! {

/// A node of the trie: the id of the key that ends here (if any), and the
/// children reached by one more byte.
pub struct TrieNode {
    id: Option<usize>,
    children: Vec<(u8, TrieNode)>,
}

/// Position of the first occurrence of `b` in `bs`.
pub open spec fn first_index(bs: Seq<u8>, b: u8) -> Option<int>
    decreases bs.len(),
{
    if bs.len() == 0 {
        None
    } else if bs[0] == b {
        Some(0)
    } else {
        match first_index(bs.drop_first(), b) {
            Some(i) => Some(i + 1),
            None => None,
        }
    }
}

/// `first_index` is the least position holding `b`, or `None` when no
/// position holds it.
pub proof fn lemma_first_index(bs: Seq<u8>, b: u8)
    ensures
        match first_index(bs, b) {
            Some(i) => 0 <= i < bs.len() && bs[i] == b && forall|j: int|
                0 <= j < i ==> bs[j] != b,
            None => forall|j: int| 0 <= j < bs.len() ==> bs[j] != b,
        },
    decreases bs.len(),
{
    if bs.len() > 0 && bs[0] != b {
        lemma_first_index(bs.drop_first(), b);
        match first_index(bs.drop_first(), b) {
            Some(i) => {
                assert forall|j: int| 0 <= j < i + 1 implies bs[j] != b by {
                    if j > 0 {
                        assert(bs[j] == bs.drop_first()[j - 1]);
                    }
                }
            },
            None => {
                assert forall|j: int| 0 <= j < bs.len() implies bs[j] != b by {
                    if j > 0 {
                        assert(bs[j] == bs.drop_first()[j - 1]);
                    }
                }
            },
        }
    }
}

/// Two non-empty sequences with the same first element and the same rest
/// are equal.
pub proof fn lemma_same_head_tail(a: Seq<u8>, b: Seq<u8>)
    requires
        a.len() > 0,
        b.len() > 0,
        a[0] == b[0],
        a.drop_first() == b.drop_first(),
    ensures
        a == b,
{
    assert(a.drop_first().len() == a.len() - 1);
    assert(b.drop_first().len() == b.len() - 1);
    assert forall|i: int| 0 <= i < a.len() implies a[i] == b[i] by {
        if i > 0 {
            assert(a[i] == a.drop_first()[i - 1]);
            assert(b[i] == b.drop_first()[i - 1]);
        }
    }
    assert(a =~= b);
}

/// The bytes that label the children, in order.
pub open spec fn child_bytes(children: Seq<(u8, TrieNode)>) -> Seq<u8> {
    children.map_values(|c: (u8, TrieNode)| c.0)
}

impl TrieNode {
    /// The id stored under `key` below this node.
    pub closed spec fn lookup(self, key: Seq<u8>) -> Option<usize>
        decreases key.len(),
    {
        if key.len() == 0 {
            self.id
        } else {
            match first_index(child_bytes(self.children@), key[0]) {
                Some(i) => self.children@[i].1.lookup(key.drop_first()),
                None => None,
            }
        }
    }

    proof fn lemma_empty_lookup(self, key: Seq<u8>)
        requires
            self.id is None,
            self.children@.len() == 0,
        ensures
            self.lookup(key) is None,
    {
        if key.len() > 0 {
            assert(child_bytes(self.children@).len() == 0);
        }
    }

    fn new() -> (n: TrieNode)
        ensures
            forall|k: Seq<u8>| (#[trigger] n.lookup(k)) is None,
    {
        let n = TrieNode { id: None, children: Vec::new() };
        assert forall|k: Seq<u8>| (#[trigger] n.lookup(k)) is None by {
            n.lemma_empty_lookup(k);
        }
        n
    }

    fn find_child(&self, b: u8) -> (r: Option<usize>)
        ensures
            match r {
                Some(i) => first_index(child_bytes(self.children@), b) == Some(i as int) && i
                    < self.children@.len(),
                None => first_index(child_bytes(self.children@), b) is None,
            },
    {
        let ghost bs = child_bytes(self.children@);
        proof {
            lemma_first_index(bs, b);
        }
        let mut i: usize = 0;
        while i < self.children.len()
            invariant
                i <= self.children@.len(),
                bs == child_bytes(self.children@),
                forall|j: int| 0 <= j < i ==> bs[j] != b,
                match first_index(bs, b) {
                    Some(k) => 0 <= k < bs.len() && bs[k] == b && forall|j: int|
                        0 <= j < k ==> bs[j] != b,
                    None => forall|j: int| 0 <= j < bs.len() ==> bs[j] != b,
                },
            decreases self.children@.len() - i,
        {
            if self.children[i].0 == b {
                assert(bs[i as int] == b);
                return Some(i);
            }
            assert(bs[i as int] != b);
            i = i + 1;
        }
        None
    }

    /// Stores `id` under `key[pos..]` below this node.
    fn insert(&mut self, key: &[u8], pos: usize, id: usize) -> (prev: Option<usize>)
        requires
            pos <= key@.len(),
        ensures
            prev == old(self).lookup(key@.skip(pos as int)),
            forall|k: Seq<u8>|
                #![trigger final(self).lookup(k)]
                final(self).lookup(k) == if k == key@.skip(pos as int) {
                    Some(id)
                } else {
                    old(self).lookup(k)
                },
        decreases key@.len() - pos,
    {
        let ghost old_node = *self;
        let ghost suffix = key@.skip(pos as int);
        if pos == key.len() {
            let prev = self.id;
            self.id = Some(id);
            assert(suffix.len() == 0);
            assert forall|k: Seq<u8>|
                #![trigger self.lookup(k)]
                self.lookup(k) == if k == suffix {
                    Some(id)
                } else {
                    old_node.lookup(k)
                } by {
                if k.len() == 0 {
                    assert(k =~= suffix);
                }
            }
            return prev;
        }
        let b = key[pos];
        assert(suffix[0] == b);
        assert(suffix.drop_first() =~= key@.skip(pos + 1));
        match self.find_child(b) {
            Some(k) => {
                let (bb, mut child) = self.children.remove(k);
                let ghost old_child = child;
                let prev = child.insert(key, pos + 1, id);
                self.children.insert(k, (bb, child));
                assert(child_bytes(self.children@) =~= child_bytes(old_node.children@));
                assert(self.children@[k as int] == (bb, child));
                assert(old_node.children@[k as int] == (bb, old_child));
                proof {
                    lemma_first_index(child_bytes(old_node.children@), b);
                }
                assert(child_bytes(old_node.children@)[k as int] == b);
                assert(old_node.lookup(suffix) == old_child.lookup(suffix.drop_first()));
                assert forall|q: Seq<u8>|
                    #![trigger self.lookup(q)]
                    self.lookup(q) == if q == suffix {
                        Some(id)
                    } else {
                        old_node.lookup(q)
                    } by {
                    if q.len() == 0 {
                        assert(q != suffix);
                    } else {
                        let c = q[0];
                        let bs = child_bytes(self.children@);
                        if c == b {
                            assert(first_index(bs, b) == Some(k as int));
                            assert(self.lookup(q) == child.lookup(q.drop_first()));
                            assert(old_node.lookup(q) == old_child.lookup(q.drop_first()));
                            assert(q == suffix <==> q.drop_first() == key@.skip(pos + 1)) by {
                                if q.drop_first() == key@.skip(pos + 1) {
                                    lemma_same_head_tail(q, suffix);
                                }
                            }
                        } else {
                            lemma_first_index(bs, c);
                            match first_index(bs, c) {
                                Some(j) => {
                                    assert(bs[j] == c);
                                    assert(j != k);
                                    assert(self.children@[j] == old_node.children@[j]);
                                },
                                None => {},
                            }
                            assert(self.lookup(q) == old_node.lookup(q));
                            assert(q != suffix);
                        }
                    }
                }
                prev
            },
            None => {
                let mut child = TrieNode::new();
                let ghost fresh = child;
                child.insert(key, pos + 1, id);
                let ghost old_bs = child_bytes(old_node.children@);
                self.children.push((b, child));
                let ghost bs = child_bytes(self.children@);
                assert(bs =~= old_bs.push(b));
                proof {
                    lemma_first_index(old_bs, b);
                    lemma_first_index(bs, b);
                }
                assert(first_index(bs, b) == Some(old_bs.len() as int)) by {
                    match first_index(bs, b) {
                        Some(j) => {
                            if j < old_bs.len() {
                                assert(old_bs[j] == bs[j]);
                            }
                        },
                        None => {
                            assert(bs[old_bs.len() as int] == b);
                        },
                    }
                }
                assert forall|q: Seq<u8>|
                    #![trigger self.lookup(q)]
                    self.lookup(q) == if q == suffix {
                        Some(id)
                    } else {
                        old_node.lookup(q)
                    } by {
                    if q.len() == 0 {
                        assert(q != suffix);
                    } else {
                        let c = q[0];
                        if c == b {
                            assert(fresh.lookup(q.drop_first()) is None);
                            assert(self.children@[old_bs.len() as int] == (b, child));
                            assert(self.lookup(q) == child.lookup(q.drop_first()));
                            assert(old_node.lookup(q) is None);
                            assert(q == suffix <==> q.drop_first() == key@.skip(pos + 1)) by {
                                if q.drop_first() == key@.skip(pos + 1) {
                                    lemma_same_head_tail(q, suffix);
                                }
                            }
                        } else {
                            lemma_first_index(old_bs, c);
                            lemma_first_index(bs, c);
                            match first_index(old_bs, c) {
                                Some(j) => {
                                    match first_index(bs, c) {
                                        Some(j2) => {
                                            if j2 < j {
                                                assert(old_bs[j2] == bs[j2]);
                                            }
                                            if j < j2 {
                                                assert(old_bs[j] == bs[j]);
                                            }
                                            assert(self.children@[j] == old_node.children@[j]);
                                        },
                                        None => {
                                            assert(bs[j] == old_bs[j]);
                                        },
                                    }
                                },
                                None => {
                                    assert(bs[old_bs.len() as int] == b);
                                    match first_index(bs, c) {
                                        Some(j2) => {
                                            if j2 < old_bs.len() {
                                                assert(old_bs[j2] == bs[j2]);
                                            }
                                        },
                                        None => {},
                                    }
                                },
                            }
                            assert(self.lookup(q) == old_node.lookup(q));
                            assert(q != suffix);
                        }
                    }
                }
                assert(old_node.lookup(suffix) is None);
                None
            },
        }
    }

    /// The id stored under `s[start..end]` below this node.
    fn get(&self, s: &[u8], start: usize, end: usize) -> (r: Option<usize>)
        requires
            start <= end <= s@.len(),
        ensures
            r == self.lookup(s@.subrange(start as int, end as int)),
    {
        let mut cur: &TrieNode = self;
        let mut i = start;
        while i < end
            invariant
                start <= i <= end <= s@.len(),
                cur.lookup(s@.subrange(i as int, end as int)) == self.lookup(
                    s@.subrange(start as int, end as int),
                ),
            decreases end - i,
        {
            let ghost sub = s@.subrange(i as int, end as int);
            assert(sub[0] == s@[i as int]);
            assert(sub.drop_first() =~= s@.subrange(i + 1, end as int));
            match cur.find_child(s[i]) {
                Some(k) => {
                    cur = &cur.children[k].1;
                },
                None => {
                    return None;
                },
            }
            i = i + 1;
        }
        assert(s@.subrange(i as int, end as int).len() == 0);
        cur.id
    }
}

/// A map from byte strings to ids.  Beside the trie it keeps the list of its
/// keys, each once, in the order in which they were first inserted.
pub struct ByteTrie {
    root: TrieNode,
    keys: Vec<Vec<u8>>,
}

impl View for ByteTrie {
    type V = Map<Seq<u8>, usize>;

    closed spec fn view(&self) -> Map<Seq<u8>, usize> {
        Map::new(|k: Seq<u8>| self.root.lookup(k) is Some, |k: Seq<u8>| self.root.lookup(k).unwrap())
    }
}

impl ByteTrie {
    /// The keys, as byte sequences, in insertion order.
    pub closed spec fn key_list(&self) -> Seq<Seq<u8>> {
        self.keys@.map_values(|k: Vec<u8>| k@)
    }

    /// The key list holds every key of the map exactly once.
    pub open spec fn wf(&self) -> bool {
        &&& self.key_list().no_duplicates()
        &&& forall|i: int| 0 <= i < self.key_list().len() ==> self@.contains_key(#[trigger] self.key_list()[i])
        &&& forall|k: Seq<u8>| #[trigger] self@.contains_key(k) ==> self.key_list().contains(k)
    }

    /// The keys of the map are those of the key list; so there are finitely
    /// many, as many as the list is long.
    pub proof fn lemma_finite(&self)
        requires
            self.wf(),
        ensures
            self@.dom() == self.key_list().to_set(),
            self@.dom().finite(),
            self@.dom().len() == self.key_list().len(),
    {
        assert(self@.dom() =~= self.key_list().to_set());
        vstd::seq_lib::seq_to_set_is_finite(self.key_list());
        self.key_list().unique_seq_to_set();
    }

    /// An empty map.
    pub fn new() -> (t: ByteTrie)
        ensures
            t.wf(),
            t@ == Map::<Seq<u8>, usize>::empty(),
    {
        let t = ByteTrie { root: TrieNode::new(), keys: Vec::new() };
        assert(t@ =~= Map::<Seq<u8>, usize>::empty());
        assert(t.key_list() =~= Seq::<Seq<u8>>::empty());
        t
    }

    /// The id stored under `key`, if any.
    pub fn get(&self, key: &[u8]) -> (r: Option<usize>)
        ensures
            r == (if self@.contains_key(key@) { Some(self@[key@]) } else { None }),
    {
        let r = self.root.get(key, 0, key.len());
        assert(key@.subrange(0, key@.len() as int) =~= key@);
        r
    }

    /// The id stored under `s[start..end]`, if any.
    pub fn get_range(&self, s: &[u8], start: usize, end: usize) -> (r: Option<usize>)
        requires
            start <= end <= s@.len(),
        ensures
            r == (if self@.contains_key(s@.subrange(start as int, end as int)) {
                Some(self@[s@.subrange(start as int, end as int)])
            } else {
                None
            }),
    {
        self.root.get(s, start, end)
    }

    /// Stores `id` under `key`, and returns the id that was stored under it
    /// before, if any.
    pub fn insert(&mut self, key: &[u8], id: usize) -> (prev: Option<usize>)
        requires
            old(self).wf(),
        ensures
            final(self).wf(),
            final(self)@ == old(self)@.insert(key@, id),
            prev == (if old(self)@.contains_key(key@) { Some(old(self)@[key@]) } else { None }),
    {
        let ghost old_map = self@;
        let ghost old_keys = self.key_list();
        let prev = self.root.insert(key, 0, id);
        assert(key@.skip(0) =~= key@);
        if prev.is_none() {
            let copy = bytes_to_vec(key);
            self.keys.push(copy);
            assert(self.key_list() =~= old_keys.push(key@));
            assert(!old_keys.contains(key@));
        } else {
            assert(self.key_list() =~= old_keys);
        }
        assert(self@ =~= old_map.insert(key@, id));
        assert forall|i: int| 0 <= i < self.key_list().len() implies self@.contains_key(
            #[trigger] self.key_list()[i],
        ) by {
            if i < old_keys.len() {
                assert(self.key_list()[i] == old_keys[i]);
            }
        }
        assert forall|k: Seq<u8>| #[trigger] self@.contains_key(k) implies self.key_list().contains(
            k,
        ) by {
            if k == key@ && prev.is_none() {
                assert(self.key_list()[old_keys.len() as int] == k);
            } else {
                assert(old_map.contains_key(k));
                let j = choose|j: int| 0 <= j < old_keys.len() && old_keys[j] == k;
                assert(self.key_list()[j] == k);
            }
        }
        prev
    }

    /// Every (key, id) pair of the map, each key once, in the order in which
    /// the keys were first inserted.
    pub fn entries(&self) -> (r: Vec<(Vec<u8>, usize)>)
        requires
            self.wf(),
        ensures
            r@.len() == self.key_list().len(),
            forall|i: int|
                0 <= i < r@.len() ==> (#[trigger] r@[i]).0@ == self.key_list()[i] && self@.contains_key(
                    r@[i].0@,
                ) && self@[r@[i].0@] == r@[i].1,
    {
        let mut r: Vec<(Vec<u8>, usize)> = Vec::new();
        let mut i: usize = 0;
        while i < self.keys.len()
            invariant
                self.wf(),
                i <= self.keys@.len(),
                r@.len() == i,
                forall|j: int|
                    0 <= j < i ==> (#[trigger] r@[j]).0@ == self.key_list()[j] && self@.contains_key(
                        r@[j].0@,
                    ) && self@[r@[j].0@] == r@[j].1,
            decreases self.keys@.len() - i,
        {
            let key = &self.keys[i];
            assert(key@ == self.key_list()[i as int]);
            let id = match self.get(key.as_slice()) {
                Some(id) => id,
                None => {
                    assert(false);
                    0
                },
            };
            let copy = bytes_to_vec(key.as_slice());
            r.push((copy, id));
            i = i + 1;
        }
        r
    }
}

/// A fresh vector holding the bytes of `s`.
pub fn bytes_to_vec(s: &[u8]) -> (v: Vec<u8>)
    ensures
        v@ == s@,
{
    let mut v: Vec<u8> = Vec::new();
    let mut i: usize = 0;
    while i < s.len()
        invariant
            i <= s@.len(),
            v@ == s@.subrange(0, i as int),
        decreases s@.len() - i,
    {
        v.push(s[i]);
        i = i + 1;
        assert(v@ =~= s@.subrange(0, i as int));
    }
    assert(s@.subrange(0, s@.len() as int) =~= s@);
    v
}

/// A fresh vector holding the bytes `s[start..end]`.
pub fn bytes_range_to_vec(s: &[u8], start: usize, end: usize) -> (v: Vec<u8>)
    requires
        start <= end <= s@.len(),
    ensures
        v@ == s@.subrange(start as int, end as int),
{
    let mut v: Vec<u8> = Vec::new();
    let mut i: usize = start;
    while i < end
        invariant
            start <= i <= end <= s@.len(),
            v@ == s@.subrange(start as int, i as int),
        decreases end - i,
    {
        v.push(s[i]);
        i = i + 1;
        assert(v@ =~= s@.subrange(start as int, i as int));
    }
    v
}

} // verus!
