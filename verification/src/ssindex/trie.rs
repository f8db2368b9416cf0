//! A trie from keys to file offsets, laid out flat in an arena.
use crate::memtable::Blob;
use crate::ssindex::arena;
use crate::ssindex::arena::{
    below, blank_node, child, contents, edge, grown, has_child, inserted, is_edge, lemma_child_at,
    lemma_rank, lookup, node_offset, rank, sorted, walk, walkable, with_child, NodeView, TriePointer, OFFSET_MASK,
    UNMARKED_FLAG, WORD_END_FLAG,
};
use crate::ssindex::layout;
use crate::ssindex::layout::{
    children_bytes, node_at, node_bytes, nodes_at, nodes_bytes, pointer_at, trie_bytes, trie_in,
};
use crate::util;
use crate::util::be_value;
use vstd::prelude::*;

verus! {

/// One byte of key and four of arena index.
pub const SIZE_PER_CHILD_NODE: usize = 5;

/// One byte for the number of children and eight for the offset.
pub const TRIE_NODE_HEADER_SIZE: usize = 9;

/// Four bytes for the number of nodes.
pub const TRIE_HEADER_SIZE: usize = 4;

/// A node of the arena.
#[derive(Debug)]
pub struct TrieNode {
    offset: u64,
    children: Vec<TriePointer>,
}

impl View for TrieNode {
    type V = NodeView;

    closed spec fn view(&self) -> NodeView {
        NodeView { offset: self.offset, children: self.children@ }
    }
}

impl Default for TrieNode {
    fn default() -> (node: TrieNode)
        ensures
            node@ == blank_node(),
    {
        let children: Vec<TriePointer> = Vec::with_capacity(4);
        TrieNode { offset: UNMARKED_FLAG, children }
    }
}

impl TrieNode {
    /// Reads the node at `buffer_offset` and moves the offset behind it.
    pub fn deserialize_from_disk(buffer: &[u8], buffer_offset: &mut usize) -> (node: TrieNode)
        requires
            node_at(buffer@, *old(buffer_offset) as int) is Some,
        ensures
            node_at(buffer@, *old(buffer_offset) as int) == Some(
                (node@, *final(buffer_offset) as int),
            ),
            *final(buffer_offset) <= buffer.len(),
    {
        let ghost start = *buffer_offset as int;
        assert(start + 9 + 5 * buffer@[start] <= buffer.len());
        let num_children: u8 = buffer[*buffer_offset];
        *buffer_offset = *buffer_offset + 1;
        let mut children: Vec<TriePointer> = Vec::with_capacity(num_children as usize);
        let offset: u64 = util::get_be_u64(buffer, *buffer_offset);
        *buffer_offset = *buffer_offset + 8;
        let mut read: u8 = 0;
        while read < num_children
            invariant
                read <= num_children,
                num_children == buffer@[start],
                0 <= start,
                start + 9 + 5 * num_children <= buffer.len(),
                *buffer_offset == start + 9 + 5 * read,
                children@ == Seq::new(read as nat, |j: int| pointer_at(buffer@, start + 9 + 5 * j)),
            decreases num_children - read,
        {
            let ghost before = children@;
            let c: u8 = buffer[*buffer_offset];
            *buffer_offset = *buffer_offset + 1;
            let arena_idx: u32 = util::get_be_u32(buffer, *buffer_offset);
            *buffer_offset = *buffer_offset + 4;
            children.push((c, arena_idx));
            read = read + 1;
            assert(children@ =~= Seq::new(
                read as nat,
                |j: int| pointer_at(buffer@, start + 9 + 5 * j),
            ));
        }
        TrieNode { offset, children }
    }

    /// Bytes that the node takes when it is written.
    pub fn serialized_size(&self) -> (size: usize)
        requires
            node_bytes(self@).len() <= usize::MAX,
        ensures
            size == node_bytes(self@).len(),
    {
        proof {
            layout::lemma_node_bytes_len(self@);
        }
        TRIE_NODE_HEADER_SIZE + SIZE_PER_CHILD_NODE * self.children.len()
    }

    /// Writes the node behind what `buffer` holds.
    pub fn serialize_into_buffer(&self, buffer: &mut Vec<u8>)
        ensures
            final(buffer)@ == old(buffer)@ + node_bytes(self@),
    {
        let ghost start = buffer@;
        util::push_be(buffer, self.children.len() as u64, 1);
        util::push_be(buffer, self.offset, 8);
        let ghost head = buffer@;
        let mut written: usize = 0;
        assert(self.children@.take(0) =~= Seq::<TriePointer>::empty());
        assert(buffer@ =~= head + children_bytes(self.children@.take(0)));
        while written < self.children.len()
            invariant
                written <= self.children@.len(),
                buffer@ == head + children_bytes(self.children@.take(written as int)),
            decreases self.children@.len() - written,
        {
            let (c, arena_idx) = self.children[written];
            let ghost before = buffer@;
            buffer.push(c);
            util::push_be(buffer, arena_idx as u64, 4);
            proof {
                let next = self.children@.take(written + 1);
                assert(next.drop_last() =~= self.children@.take(written as int));
                assert(next.last() == (c, arena_idx));
                assert(buffer@ =~= before + layout::pointer_bytes((c, arena_idx)));
                assert(buffer@ =~= head + children_bytes(next));
            }
            written = written + 1;
        }
        assert(self.children@.take(written as int) =~= self.children@);
        assert(buffer@ =~= start + node_bytes(self@));
    }

    /// Whether the children are sorted and all below `limit`.
    fn children_within(&self, limit: usize) -> (checked: bool)
        ensures
            checked == (sorted(self@.children) && forall|j: int|
                0 <= j < self@.children.len() ==> (#[trigger] self@.children[j]).1 < limit),
    {
        let mut i: usize = 0;
        while i < self.children.len()
            invariant
                i <= self.children@.len(),
                sorted(self.children@.take(i as int)),
                forall|j: int| 0 <= j < i ==> (#[trigger] self.children@[j]).1 < limit,
            decreases self.children@.len() - i,
        {
            let (c, arena_idx) = self.children[i];
            if arena_idx as usize >= limit {
                assert(self@.children[i as int].1 >= limit);
                return false;
            }
            if i > 0 && self.children[i - 1].0 >= c {
                assert(self@.children[i - 1].0 >= self@.children[i as int].0);
                return false;
            }
            proof {
                let front = self.children@.take(i as int);
                let next = self.children@.take(i + 1);
                assert forall|a: int, b: int| 0 <= a < b < next.len() implies (
                #[trigger] next[a]).0 < (#[trigger] next[b]).0 by {
                    assert(next[a] == front[a]);
                    if b < i {
                        assert(next[b] == front[b]);
                    } else if a < i - 1 {
                        assert(front[a].0 < front[i - 1].0);
                    }
                }
            }
            i = i + 1;
        }
        assert(self.children@.take(i as int) =~= self.children@);
        true
    }

    /// Marks the end of a word, with `offset`.
    pub fn set_offset(&mut self, offset: u64)
        ensures
            final(self)@ == (NodeView { offset: offset | WORD_END_FLAG, ..old(self)@ }),
    {
        self.offset = offset | WORD_END_FLAG;
    }

    /// The offset, if a word ends here.
    pub fn get_offset(&self) -> (offset: Option<u64>)
        ensures
            offset == node_offset(self@),
    {
        if self.offset == UNMARKED_FLAG {
            return None;
        }
        Some(self.offset & OFFSET_MASK)
    }

    /// The arena index of the child for `c`; where there is none, the position
    /// among the children at which it belongs.
    pub fn get_child_idx(&self, c: u8) -> (found: Result<usize, usize>)
        requires
            sorted(self@.children),
        ensures
            match found {
                Ok(idx) => child(self@, c) == Some(idx as int),
                Err(pos) => child(self@, c) is None && pos == rank(self@.children, c) && pos
                    <= self@.children.len(),
            },
    {
        let mut low: usize = 0;
        let mut high: usize = self.children.len();
        while low < high
            invariant
                low <= high <= self.children@.len(),
                sorted(self.children@),
                forall|i: int| 0 <= i < low ==> (#[trigger] self.children@[i]).0 < c,
                forall|i: int|
                    high <= i < self.children@.len() ==> (#[trigger] self.children@[i]).0 > c,
            decreases high - low,
        {
            let mid: usize = low + (high - low) / 2;
            let (byte, idx) = self.children[mid];
            if byte == c {
                proof {
                    assert(has_child(self@, mid as int, c));
                    lemma_child_at(self@, mid as int, c);
                }
                return Ok(idx as usize);
            }
            if byte < c {
                low = mid + 1;
            } else {
                high = mid;
            }
        }
        proof {
            assert forall|j: int| !has_child(self@, j, c) by {
                if 0 <= j < self.children@.len() {
                    assert(self.children@[j].0 < c || self.children@[j].0 > c);
                }
            }
            lemma_rank(self@.children, c, low as int);
        }
        Err(low)
    }

    /// Puts in a child at `pos`.
    pub fn insert_child(&mut self, pos: usize, c: u8, idx: u32)
        requires
            pos <= old(self)@.children.len(),
        ensures
            final(self)@ == (NodeView {
                children: old(self)@.children.insert(pos as int, (c, idx)),
                ..old(self)@
            }),
    {
        self.children.insert(pos, (c, idx))
    }
}

/// A trie in a flat arena, which keeps its nodes close together. The root is the
/// first node; an empty arena is an empty trie.
#[derive(Debug)]
pub struct Trie {
    arena: Vec<TrieNode>,
}

impl View for Trie {
    type V = Map<Seq<u8>, u64>;

    /// The keys with their offsets.
    open spec fn view(&self) -> Map<Seq<u8>, u64> {
        contents(self.nodes())
    }
}

impl Default for Trie {
    /// An empty trie.
    fn default() -> (trie: Trie)
        ensures
            trie.nodes() == Seq::<NodeView>::empty(),
            trie.wf(),
            trie@ == Map::<Seq<u8>, u64>::empty(),
    {
        Trie::new(0)
    }
}

impl Trie {
    /// The nodes, in the order of the arena.
    pub closed spec fn nodes(&self) -> Seq<NodeView> {
        self.arena@.map_values(|node: TrieNode| node@)
    }

    /// The trie can be searched.
    pub open spec fn walkable(&self) -> bool {
        walkable(self.nodes())
    }

    /// The trie is one that insertions built.
    pub open spec fn wf(&self) -> bool {
        arena::wf(self.nodes())
    }

    /// An empty trie, with room for `capacity` nodes.
    pub fn new(capacity: usize) -> (trie: Trie)
        ensures
            trie.nodes() == Seq::<NodeView>::empty(),
            trie.wf(),
            trie@ == Map::<Seq<u8>, u64>::empty(),
    {
        let arena: Vec<TrieNode> = Vec::with_capacity(capacity);
        let trie = Trie { arena };
        assert(trie.nodes() =~= Seq::<NodeView>::empty());
        assert(trie@ =~= Map::<Seq<u8>, u64>::empty());
        trie
    }

    /// Makes `key` lead to `offset`, of which the trie keeps the low 63 bits.
    pub fn insert(&mut self, key: &[u8], offset: u64)
        requires
            old(self).wf(),
            arena::room_for(old(self).nodes(), key@),
        ensures
            final(self).wf(),
            final(self).nodes() == inserted(old(self).nodes(), key@, offset),
            final(self).nodes().len() <= old(self).nodes().len() + key@.len() + 1,
            final(self)@ == old(self)@.insert(key@, offset & OFFSET_MASK),
    {
        proof {
            arena::lemma_grown_len(self.nodes(), key@);
            arena::lemma_inserted(self.nodes(), key@, offset);
        }
        if self.arena.is_empty() {
            self.arena.push(TrieNode::default());
        }
        let ghost start = old(self).nodes();
        let mut arena_idx: usize = 0;
        let mut walked: usize = 0;
        assert(self.nodes() =~= grown(start, key@.take(0)));
        while walked < key.len()
            invariant
                walked <= key@.len(),
                arena::wf(start),
                grown(start, key@).len() <= 0x1_0000_0000,
                self.nodes() == grown(start, key@.take(walked as int)),
                walk(self.nodes(), key@.take(walked as int)) == Some(arena_idx as int),
            decreases key@.len() - walked,
        {
            let ghost prefix = key@.take(walked as int);
            proof {
                let next = key@.take(walked + 1);
                assert(next.drop_last() =~= prefix);
                assert(next.last() == key@[walked as int]);
                arena::lemma_grown_len_monotonic(start, key@, walked as int);
                arena::lemma_grown_len_monotonic(start, key@, walked + 1);
                arena::lemma_grown(start, prefix);
                arena::lemma_grown(start, next);
                arena::lemma_walk_in_range(self.nodes(), prefix);
                let c = key@[walked as int];
                if child(self.nodes()[arena_idx as int], c) is None {
                    assert(next =~= prefix.push(c));
                    arena::lemma_with_child_walk(self.nodes(), prefix, c, next);
                }
            }
            arena_idx = self.get_or_insert_node(arena_idx, key[walked]);
            walked = walked + 1;
        }
        assert(key@.take(walked as int) =~= key@);
        proof {
            arena::lemma_grown(start, key@);
            arena::lemma_walk_in_range(self.nodes(), key@);
        }
        let ghost before = self.nodes();
        self.arena[arena_idx].set_offset(offset);
        assert(self.nodes() =~= arena::marked(before, arena_idx as int, offset));
    }

    /// The child of a node for byte `c`, which is added where there is none.
    fn get_or_insert_node(&mut self, arena_idx: usize, c: u8) -> (child_idx: usize)
        requires
            arena_idx < old(self).nodes().len(),
            walkable(old(self).nodes()),
            child(old(self).nodes()[arena_idx as int], c) is None ==> old(self).nodes().len()
                <= u32::MAX,
        ensures
            match child(old(self).nodes()[arena_idx as int], c) {
                Some(idx) => final(self).nodes() == old(self).nodes() && child_idx == idx,
                None => final(self).nodes() == with_child(
                    old(self).nodes(),
                    arena_idx as int,
                    c,
                ) && child_idx == old(self).nodes().len(),
            },
    {
        match self.arena[arena_idx].get_child_idx(c) {
            Ok(child_idx) => child_idx,
            Err(child_insert) => {
                let child_idx: usize = self.arena.len();
                self.arena.push(TrieNode::default());
                self.arena[arena_idx].insert_child(child_insert, c, child_idx as u32);
                assert(self.nodes() =~= with_child(old(self).nodes(), arena_idx as int, c));
                child_idx
            },
        }
    }

    /// The offset that `key` leads to.
    pub fn get(&self, key: &[u8]) -> (offset: Option<u64>)
        requires
            self.walkable(),
        ensures
            offset == lookup(self.nodes(), key@),
            offset == self@.get(key@),
    {
        if self.arena.is_empty() {
            return None;
        }
        let mut arena_idx: usize = 0;
        let mut walked: usize = 0;
        while walked < key.len()
            invariant
                walked <= key@.len(),
                self.walkable(),
                arena_idx < self.nodes().len(),
                walk(self.nodes(), key@.take(walked as int)) == Some(arena_idx as int),
            decreases key@.len() - walked,
        {
            proof {
                let next = key@.take(walked + 1);
                assert(next.drop_last() =~= key@.take(walked as int));
                arena::lemma_walk_in_range(self.nodes(), next);
            }
            match self.arena[arena_idx].get_child_idx(key[walked]) {
                Ok(idx) => {
                    arena_idx = idx;
                },
                Err(_) => {
                    proof {
                        arena::lemma_walk_none(self.nodes(), key@, walked + 1);
                    }
                    return None;
                },
            }
            walked = walked + 1;
        }
        assert(key@.take(walked as int) =~= key@);
        self.arena[arena_idx].get_offset()
    }

    /// Whether the trie can be searched: what was read from a file may hold anything.
    pub fn is_walkable(&self) -> (checked: bool)
        ensures
            checked == self.walkable(),
    {
        let mut i: usize = 0;
        while i < self.arena.len()
            invariant
                i <= self.arena@.len(),
                forall|n: int| 0 <= n < i ==> sorted((#[trigger] self.nodes()[n]).children),
                forall|n: int, j: int|
                    n < i && is_edge(self.nodes(), n, j) ==> 0 <= #[trigger] edge(
                        self.nodes(),
                        n,
                        j,
                    ) < self.nodes().len(),
            decreases self.arena@.len() - i,
        {
            if !self.arena[i].children_within(self.arena.len()) {
                proof {
                    let node = self.nodes()[i as int];
                    if self.walkable() {
                        assert forall|j: int| 0 <= j < node.children.len() implies (
                        #[trigger] node.children[j]).1 < self.arena@.len() by {
                            assert(is_edge(self.nodes(), i as int, j));
                            assert(edge(self.nodes(), i as int, j) < self.nodes().len());
                        }
                        assert(sorted(node.children));
                    }
                }
                return false;
            }
            i = i + 1;
        }
        true
    }

    /// How many nodes the trie has.
    pub fn node_count(&self) -> (count: usize)
        ensures
            count == self.nodes().len(),
    {
        self.arena.len()
    }

    /// Whether the byte that counts the children of a node can hold their number, at
    /// every node.
    pub fn is_countable(&self) -> (checked: bool)
        ensures
            checked == layout::countable(self.nodes()),
            checked <==> forall|i: int|
                0 <= i < self.nodes().len() ==> (#[trigger] self.nodes()[i]).children.len() < 256,
    {
        let ghost nodes = self.nodes();
        let mut i: usize = 0;
        while i < self.arena.len()
            invariant
                nodes == self.nodes(),
                i <= self.arena@.len(),
                forall|n: int| 0 <= n < i ==> (#[trigger] nodes[n]).children.len() < 256,
            decreases self.arena@.len() - i,
        {
            assert(nodes[i as int] == self.arena@[i as int]@);
            if self.arena[i].children.len() >= 256 {
                return false;
            }
            i = i + 1;
        }
        true
    }

    /// Whether the first and the last key can be found by walking down: what was read
    /// from a file may hold anything.
    pub fn is_spanned(&self) -> (checked: bool)
        ensures
            checked == arena::spanned(self.nodes()),
    {
        let ghost nodes = self.nodes();
        if !self.is_walkable() {
            return false;
        }
        let mut i: usize = 0;
        while i < self.arena.len()
            invariant
                nodes == self.nodes(),
                walkable(nodes),
                i <= self.arena@.len(),
                forall|n: int, j: int|
                    n < i && is_edge(nodes, n, j) ==> n < #[trigger] edge(nodes, n, j),
                forall|n: int|
                    0 <= n < i && (#[trigger] nodes[n]).children.len() == 0 ==> nodes[n].offset
                        != UNMARKED_FLAG,
            decreases self.arena@.len() - i,
        {
            let node = &self.arena[i];
            assert(nodes[i as int] == node@);
            if node.children.len() == 0 && node.offset == UNMARKED_FLAG {
                return false;
            }
            let mut k: usize = 0;
            while k < node.children.len()
                invariant
                    nodes == self.nodes(),
                    i < nodes.len(),
                    nodes[i as int] == node@,
                    k <= node.children@.len(),
                    forall|j: int|
                        j < k && is_edge(nodes, i as int, j) ==> i < #[trigger] edge(
                            nodes,
                            i as int,
                            j,
                        ),
                decreases node.children@.len() - k,
            {
                let (_, arena_idx) = node.children[k];
                if arena_idx as usize <= i {
                    proof {
                        assert(is_edge(nodes, i as int, k as int));
                        assert(edge(nodes, i as int, k as int) <= i);
                    }
                    return false;
                }
                k = k + 1;
            }
            i = i + 1;
        }
        true
    }

    /// The first key in byte order; `None` where there is no key.
    pub fn min_key(&self) -> (key: Option<Blob>)
        requires
            arena::spanned(self.nodes()),
        ensures
            key is None <==> self@.dom() == Set::<Seq<u8>>::empty(),
            key matches Some(first) ==> {
                &&& self@.contains_key(first@)
                &&& forall|other: Seq<u8>| #[trigger]
                    self@.contains_key(other) ==> other == first@ || util::bytes_lt(first@, other)
            },
    {
        if self.arena.is_empty() {
            assert(self@.dom() =~= Set::empty());
            return None;
        }
        let ghost nodes = self.nodes();
        let mut path: Blob = Vec::new();
        let mut arena_idx: usize = 0;
        assert forall|word: Seq<u8>| #[trigger] lookup(nodes, word) is Some implies (
        path@.is_prefix_of(word) || below(path@, word)) by {
            assert(path@ =~= word.subrange(0, 0));
        }
        while self.arena[arena_idx].offset == UNMARKED_FLAG
            invariant
                arena::spanned(nodes),
                nodes == self.nodes(),
                arena_idx < nodes.len(),
                walk(nodes, path@) == Some(arena_idx as int),
                forall|word: Seq<u8>| #[trigger]
                    lookup(nodes, word) is Some ==> path@.is_prefix_of(word) || below(path@, word),
            decreases nodes.len() - arena_idx,
        {
            assert(nodes[arena_idx as int].children.len() > 0);
            let (c, next_idx) = self.arena[arena_idx].children[0];
            proof {
                assert forall|word: Seq<u8>| #[trigger] lookup(nodes, word) is Some implies (
                path@.push(c).is_prefix_of(word) || below(path@.push(c), word)) by {
                    arena::lemma_first_child_step(nodes, path@, word);
                }
                assert(has_child(nodes[arena_idx as int], 0, c));
                lemma_child_at(nodes[arena_idx as int], 0, c);
                assert(path@.push(c).drop_last() =~= path@);
                assert(is_edge(nodes, arena_idx as int, 0));
                assert(arena_idx < edge(nodes, arena_idx as int, 0) < nodes.len());
            }
            path.push(c);
            arena_idx = next_idx as usize;
        }
        proof {
            assert(lookup(nodes, path@) is Some);
            assert(self@.dom().contains(path@));
            assert forall|other: Seq<u8>| #[trigger] self@.contains_key(other) implies other
                == path@ || util::bytes_lt(path@, other) by {
                assert(lookup(nodes, other) is Some);
                if path@.is_prefix_of(other) {
                    arena::lemma_prefix_is_le(path@, other);
                } else {
                    arena::lemma_below_is_lt(path@, other);
                }
            }
        }
        Some(path)
    }

    /// The last key in byte order; `None` where there is no key.
    pub fn max_key(&self) -> (key: Option<Blob>)
        requires
            arena::spanned(self.nodes()),
        ensures
            key is None <==> self@.dom() == Set::<Seq<u8>>::empty(),
            key matches Some(last) ==> {
                &&& self@.contains_key(last@)
                &&& forall|other: Seq<u8>| #[trigger]
                    self@.contains_key(other) ==> other == last@ || util::bytes_lt(other, last@)
            },
    {
        if self.arena.is_empty() {
            assert(self@.dom() =~= Set::empty());
            return None;
        }
        let ghost nodes = self.nodes();
        let mut path: Blob = Vec::new();
        let mut arena_idx: usize = 0;
        assert forall|word: Seq<u8>| #[trigger] lookup(nodes, word) is Some implies (
        word.is_prefix_of(path@) || path@.is_prefix_of(word) || below(word, path@)) by {
            assert(path@ =~= word.subrange(0, 0));
        }
        while self.arena[arena_idx].children.len() > 0
            invariant
                arena::spanned(nodes),
                nodes == self.nodes(),
                arena_idx < nodes.len(),
                walk(nodes, path@) == Some(arena_idx as int),
                forall|word: Seq<u8>| #[trigger]
                    lookup(nodes, word) is Some ==> word.is_prefix_of(path@) || path@.is_prefix_of(
                        word,
                    ) || below(word, path@),
            decreases nodes.len() - arena_idx,
        {
            let last: usize = self.arena[arena_idx].children.len() - 1;
            let (c, next_idx) = self.arena[arena_idx].children[last];
            proof {
                assert forall|word: Seq<u8>| #[trigger] lookup(nodes, word) is Some implies (
                word.is_prefix_of(path@.push(c)) || path@.push(c).is_prefix_of(word) || below(
                    word,
                    path@.push(c),
                )) by {
                    arena::lemma_last_child_step(nodes, path@, word);
                }
                assert(has_child(nodes[arena_idx as int], last as int, c));
                lemma_child_at(nodes[arena_idx as int], last as int, c);
                assert(path@.push(c).drop_last() =~= path@);
                assert(is_edge(nodes, arena_idx as int, last as int));
                assert(arena_idx < edge(nodes, arena_idx as int, last as int) < nodes.len());
            }
            path.push(c);
            arena_idx = next_idx as usize;
        }
        proof {
            assert(nodes[arena_idx as int].children.len() == 0);
            assert(lookup(nodes, path@) is Some);
            assert(self@.dom().contains(path@));
            assert forall|other: Seq<u8>| #[trigger] self@.contains_key(other) implies other
                == path@ || util::bytes_lt(other, path@) by {
                assert(lookup(nodes, other) is Some);
                if other.is_prefix_of(path@) {
                    arena::lemma_prefix_is_le(other, path@);
                } else if path@.is_prefix_of(other) {
                    if path@.len() < other.len() {
                        let j = arena::lemma_word_goes_on(nodes, path@, other);
                    }
                    assert(other.subrange(0, path@.len() as int) =~= other);
                } else {
                    arena::lemma_below_is_lt(other, path@);
                }
            }
        }
        Some(path)
    }

    /// Reads the trie that `buffer` begins with.
    pub fn deserialize_from_disk(buffer: &[u8]) -> (trie: Trie)
        requires
            trie_in(buffer@) is Some,
        ensures
            trie_in(buffer@) == Some(trie.nodes()),
    {
        let arena_size: u32 = util::get_be_u32(buffer, 0);
        let mut buffer_offset: usize = TRIE_HEADER_SIZE;
        let mut arena: Vec<TrieNode> = Vec::with_capacity(arena_size as usize);
        let ghost mut nodes = Seq::<NodeView>::empty();
        let mut read: u32 = 0;
        assert(arena@.map_values(|node: TrieNode| node@) =~= nodes);
        while read < arena_size
            invariant
                read <= arena_size,
                nodes_at(buffer@, arena_size as nat) is Some,
                nodes_at(buffer@, read as nat) == Some((nodes, buffer_offset as int)),
                arena@.map_values(|node: TrieNode| node@) == nodes,
            decreases arena_size - read,
        {
            proof {
                layout::lemma_nodes_at_prefix(buffer@, (read + 1) as nat, arena_size as nat);
            }
            let node = TrieNode::deserialize_from_disk(buffer, &mut buffer_offset);
            let ghost before = arena@;
            arena.push(node);
            proof {
                nodes = nodes.push(node@);
                assert(arena@.map_values(|node: TrieNode| node@) =~= nodes);
            }
            read = read + 1;
        }
        Trie { arena }
    }

    /// Whether `buffer` begins with a trie.
    pub fn is_serialized(buffer: &[u8]) -> (found: bool)
        ensures
            found == (trie_in(buffer@) is Some),
    {
        if buffer.len() < TRIE_HEADER_SIZE {
            return false;
        }
        let arena_size: u32 = util::get_be_u32(buffer, 0);
        let mut buffer_offset: usize = TRIE_HEADER_SIZE;
        let mut read: u32 = 0;
        while read < arena_size
            invariant
                read <= arena_size,
                4 <= buffer.len(),
                arena_size == be_value(buffer@.subrange(0, 4)),
                buffer_offset <= buffer.len(),
                nodes_at(buffer@, read as nat) matches Some((_, end)) && end == buffer_offset,
            decreases arena_size - read,
        {
            let left: usize = buffer.len() - buffer_offset;
            if left < TRIE_NODE_HEADER_SIZE || left - TRIE_NODE_HEADER_SIZE < SIZE_PER_CHILD_NODE
                * buffer[buffer_offset] as usize {
                proof {
                    assert(nodes_at(buffer@, (read + 1) as nat) is None);
                    if nodes_at(buffer@, arena_size as nat) is Some {
                        layout::lemma_nodes_at_prefix(
                            buffer@,
                            (read + 1) as nat,
                            arena_size as nat,
                        );
                    }
                }
                return false;
            }
            buffer_offset = buffer_offset + TRIE_NODE_HEADER_SIZE + SIZE_PER_CHILD_NODE
                * buffer[buffer_offset] as usize;
            read = read + 1;
        }
        true
    }

    /// The trie as bytes.
    pub fn serialize(self) -> (buffer: Blob)
        requires
            trie_bytes(self.nodes()).len() <= usize::MAX,
        ensures
            buffer@ == trie_bytes(self.nodes()),
    {
        let total_size: usize = self.serialized_size();
        let mut buffer: Blob = Vec::with_capacity(total_size);
        util::push_be(&mut buffer, self.arena.len() as u64, 4);
        let ghost head = buffer@;
        let mut written: usize = 0;
        assert(self.nodes().take(0) =~= Seq::<NodeView>::empty());
        assert(buffer@ =~= head + nodes_bytes(self.nodes().take(0)));
        while written < self.arena.len()
            invariant
                written <= self.arena@.len(),
                buffer@ == head + nodes_bytes(self.nodes().take(written as int)),
            decreases self.arena@.len() - written,
        {
            let ghost before = buffer@;
            self.arena[written].serialize_into_buffer(&mut buffer);
            proof {
                let next = self.nodes().take(written + 1);
                assert(next.drop_last() =~= self.nodes().take(written as int));
                assert(next.last() == self.arena@[written as int]@);
                assert(buffer@ =~= head + nodes_bytes(next));
            }
            written = written + 1;
        }
        assert(self.nodes().take(written as int) =~= self.nodes());
        assert(buffer@ =~= trie_bytes(self.nodes()));
        buffer
    }

    /// Bytes that the trie takes when it is written.
    pub fn serialized_size(&self) -> (size: usize)
        requires
            trie_bytes(self.nodes()).len() <= usize::MAX,
        ensures
            size == trie_bytes(self.nodes()).len(),
    {
        let mut size: usize = TRIE_HEADER_SIZE;
        let mut counted: usize = 0;
        proof {
            util::lemma_be_bytes_len(self.nodes().len(), 4);
        }
        assert(self.nodes().take(0) =~= Seq::<NodeView>::empty());
        while counted < self.arena.len()
            invariant
                counted <= self.arena@.len(),
                4 + nodes_bytes(self.nodes()).len() <= usize::MAX,
                size == 4 + nodes_bytes(self.nodes().take(counted as int)).len(),
            decreases self.arena@.len() - counted,
        {
            proof {
                let next = self.nodes().take(counted + 1);
                assert(next.drop_last() =~= self.nodes().take(counted as int));
                assert(next.last() == self.arena@[counted as int]@);
                layout::lemma_nodes_bytes_monotonic(self.nodes(), counted + 1);
            }
            size = size + self.arena[counted].serialized_size();
            counted = counted + 1;
        }
        assert(self.nodes().take(counted as int) =~= self.nodes());
        size
    }
}

} // verus!
