//! An ordered list of message ids, kept as a doubly-linked ring inside a table of nodes.
//!
//! Nodes live in a contiguous table and refer to each other by slot number. Two sentinel
//! nodes bound the ring; the nodes linked between them are the members of the list, from
//! front to back. A node keeps the links it had when it left the list.

use vstd::prelude::*;

verus! {

/// The slot of the sentinel in front of the first member.
pub const HEAD_SLOT: usize = 0;

/// The slot of the sentinel behind the last member.
pub const TAIL_SLOT: usize = 1;

/// The handle of a node: the number of its slot in the table of the list that made it.
#[derive(Debug, Clone, Copy, PartialEq, Eq, Structural)]
pub struct Cell(pub usize);

/// A node of the table: the id of its message and the handles of its neighbours.
#[derive(Debug, Clone, Copy)]
pub struct ListNode {
    /// message id
    pub message_id: i64,
    /// right neighbour
    pub next: Option<Cell>,
    /// left neighbour
    pub prev: Option<Cell>,
}

/// The list: a table of nodes, the members linked between the two sentinels.
pub struct List {
    /// number of members
    count: usize,
    /// the table of nodes; slots 0 and 1 hold the sentinels
    nodes: Vec<ListNode>,
    /// slots given back, to be handed out again
    spare: Vec<Cell>,
    /// the members from front to back
    order: Ghost<Seq<Cell>>,
}

/// The handle that follows position `i` of `order`: the next member, or the tail sentinel.
pub open spec fn after(order: Seq<Cell>, i: int) -> Cell {
    if 0 <= i + 1 < order.len() {
        order[i + 1]
    } else {
        Cell(TAIL_SLOT)
    }
}

/// The handle that precedes position `i` of `order`: the previous member, or the head sentinel.
pub open spec fn before(order: Seq<Cell>, i: int) -> Cell {
    if 0 < i <= order.len() {
        order[i - 1]
    } else {
        Cell(HEAD_SLOT)
    }
}

/// A sequence of distinct handles whose slots lie in `lo..hi` has at most `hi - lo` entries.
proof fn lemma_distinct_slots_bounded(s: Seq<Cell>, lo: int, hi: int)
    requires
        lo <= hi,
        forall|i: int| 0 <= i < s.len() ==> lo <= (#[trigger] s[i]).0 < hi,
        forall|i: int, j: int| 0 <= i < j < s.len() ==> s[i] != s[j],
    ensures
        s.len() <= hi - lo,
    decreases hi - lo,
{
    if s.len() == 0 {
    } else if lo == hi {
        assert(lo <= s[0].0 < hi);
    } else if exists|k: int| 0 <= k < s.len() && s[k].0 == hi - 1 {
        let k = choose|k: int| 0 <= k < s.len() && s[k].0 == hi - 1;
        let t = s.remove(k);
        assert forall|i: int| 0 <= i < t.len() implies lo <= (#[trigger] t[i]).0 < hi - 1 by {
            if i < k {
                assert(t[i] == s[i]);
            } else {
                assert(t[i] == s[i + 1]);
            }
        }
        assert forall|i: int, j: int| 0 <= i < j < t.len() implies t[i] != t[j] by {
            let a = if i < k { i } else { i + 1 };
            let b = if j < k { j } else { j + 1 };
            assert(t[i] == s[a] && t[j] == s[b]);
        }
        lemma_distinct_slots_bounded(t, lo, hi - 1);
    } else {
        assert forall|i: int| 0 <= i < s.len() implies lo <= (#[trigger] s[i]).0 < hi - 1 by {
            assert(lo <= s[i].0 < hi);
        }
        lemma_distinct_slots_bounded(s, lo, hi - 1);
    }
}

impl ListNode {
    /// Makes a node for `message_id` in the table of `list`. The node has no neighbours and
    /// is not a member; the members and the other nodes stay as they are.
    pub fn create_node(list: &mut List, message_id: i64) -> (node: Cell)
        requires
            old(list).wf(),
        ensures
            final(list).wf(),
            final(list).cells() == old(list).cells(),
            !old(list).has_node(node),
            final(list).has_node(node),
            final(list).node(node) == (ListNode { message_id, next: None, prev: None }),
            forall|c: Cell| c != node ==> final(list).has_node(c) == old(list).has_node(c),
            forall|c: Cell|
                c != node && old(list).has_node(c) ==> final(list).node(c) == old(list).node(c),
    {
        let fresh = ListNode { message_id, next: None, prev: None };
        let ghost order = list.order@;
        if list.spare.len() > 0 {
            let ghost before_pop = list.spare@;
            let node = list.spare.pop().unwrap();
            list.nodes.set(node.0, fresh);
            proof {
                assert(node == before_pop[before_pop.len() - 1]);
                assert(before_pop.contains(node));
                assert(forall|j: int|
                    0 <= j < list.spare@.len() ==> list.spare@[j] == before_pop[j]);
                assert forall|c: Cell| c != node implies (list.spare@.contains(c)
                    <==> before_pop.contains(c)) by {
                    if before_pop.contains(c) {
                        let j = choose|j: int| 0 <= j < before_pop.len() && before_pop[j] == c;
                        assert(list.spare@[j] == c);
                    }
                }
                assert forall|i: int| 0 <= i < order.len() implies order[i] != node by {
                    assert(old(list).has_node(order[i]));
                }
                assert forall|i: int| 0 <= i < order.len() implies list.has_node(#[trigger] order[i]) by {
                    assert(old(list).has_node(order[i]));
                }
                assert forall|i: int| 0 <= i < order.len() implies #[trigger] List::ring_at(
                    list.nodes@,
                    order,
                    i,
                ) by {
                    assert(List::ring_at(old(list).nodes@, order, i));
                }
                assert(List::link_in_table(fresh.next, list.nodes@.len()));
            }
            node
        } else {
            let node = Cell(list.nodes.len());
            list.nodes.push(fresh);
            proof {
                assert forall|i: int| 0 <= i < order.len() implies list.has_node(#[trigger] order[i]) by {
                    assert(old(list).has_node(order[i]));
                }
                assert forall|i: int| 0 <= i < order.len() implies #[trigger] List::ring_at(
                    list.nodes@,
                    order,
                    i,
                ) by {
                    assert(old(list).has_node(order[i]));
                    assert(List::ring_at(old(list).nodes@, order, i));
                }
                assert forall|s: int| 0 <= s < list.nodes@.len() implies List::link_in_table(
                    (#[trigger] list.nodes@[s]).next,
                    list.nodes@.len(),
                ) && List::link_in_table(list.nodes@[s].prev, list.nodes@.len()) by {
                    if s < old(list).nodes@.len() {
                        assert(list.nodes@[s] == old(list).nodes@[s]);
                    }
                }
            }
            node
        }
    }
}

impl View for List {
    type V = Seq<i64>;

    /// The message ids of the members, from front to back.
    open spec fn view(&self) -> Seq<i64> {
        self.cells().map_values(|c: Cell| self.node(c).message_id)
    }
}

impl List {
    /// The handles of the members, from front to back.
    pub closed spec fn cells(&self) -> Seq<Cell> {
        self.order@
    }

    /// The number of members as the list has counted them.
    pub closed spec fn counted(&self) -> usize {
        self.count
    }

    /// Whether `c` is the handle of a node that was made in this list and not given back.
    pub closed spec fn has_node(&self, c: Cell) -> bool {
        2 <= c.0 < self.nodes@.len() && !self.spare@.contains(c)
    }

    /// The node that the handle `c` stands for.
    pub closed spec fn node(&self, c: Cell) -> ListNode {
        self.nodes@[c.0 as int]
    }

    /// Whether `c` is a member.
    pub open spec fn contains(&self, c: Cell) -> bool {
        self.cells().contains(c)
    }

    /// The position of the member `c`, counted from the front.
    pub open spec fn position(&self, c: Cell) -> int {
        self.cells().index_of(c)
    }

    /// Whether the node at position `i` of `order` is linked to the handles beside it.
    spec fn ring_at(nodes: Seq<ListNode>, order: Seq<Cell>, i: int) -> bool {
        &&& nodes[order[i].0 as int].next == Some(after(order, i))
        &&& nodes[order[i].0 as int].prev == Some(before(order, i))
    }

    /// Whether the link `l` stays inside a table of `len` slots.
    spec fn link_in_table(l: Option<Cell>, len: nat) -> bool {
        match l {
            Some(c) => c.0 < len,
            None => true,
        }
    }

    /// The members are distinct nodes of the table, linked into a ring between the two
    /// sentinels in the order of `cells`, and counted.
    pub closed spec fn wf(&self) -> bool {
        let order = self.order@;
        let nodes = self.nodes@;
        &&& nodes.len() >= 2
        &&& nodes[HEAD_SLOT as int].message_id == 0
        &&& nodes[TAIL_SLOT as int].message_id == 0
        &&& self.count == order.len()
        &&& forall|i: int| 0 <= i < order.len() ==> self.has_node(#[trigger] order[i])
        &&& forall|i: int, j: int| 0 <= i < j < order.len() ==> order[i] != order[j]
        &&& nodes[HEAD_SLOT as int].next == Some(after(order, -1))
        &&& nodes[TAIL_SLOT as int].prev == Some(before(order, order.len() as int))
        &&& forall|i: int| 0 <= i < order.len() ==> #[trigger] Self::ring_at(nodes, order, i)
        &&& forall|s: int|
            0 <= s < nodes.len() ==> Self::link_in_table((#[trigger] nodes[s]).next, nodes.len())
                && Self::link_in_table(nodes[s].prev, nodes.len())
        &&& forall|j: int| 0 <= j < self.spare@.len() ==> 2 <= (#[trigger] self.spare@[j]).0 < nodes.len()
        &&& forall|i: int, j: int| 0 <= i < j < self.spare@.len() ==> self.spare@[i] != self.spare@[j]
    }

    /// In a well-formed list the members are distinct nodes of the list, and the count is
    /// their number.
    pub proof fn lemma_wf_members(&self)
        requires
            self.wf(),
        ensures
            self.counted() == self.cells().len(),
            self@.len() == self.cells().len(),
            self.cells().no_duplicates(),
            forall|c: Cell| #[trigger] self.contains(c) ==> self.has_node(c),
    {
        assert forall|c: Cell| #[trigger] self.contains(c) implies self.has_node(c) by {
            let i = choose|i: int| 0 <= i < self.order@.len() && self.order@[i] == c;
            assert(self.has_node(self.order@[i]));
        }
    }

    /// In a well-formed list the neighbours of the member at position `i` are the members
    /// beside it, or a sentinel at either end.
    pub proof fn lemma_wf_links(&self, i: int)
        requires
            self.wf(),
            0 <= i < self.cells().len(),
        ensures
            self.node(self.cells()[i]).next == Some(after(self.cells(), i)),
            self.node(self.cells()[i]).prev == Some(before(self.cells(), i)),
    {
        assert(Self::ring_at(self.nodes@, self.order@, i));
    }

    /// The members leave room for one more: their number is below the largest size.
    proof fn lemma_room(&self)
        requires
            self.wf(),
        ensures
            self.order@.len() + 2 <= self.nodes@.len(),
    {
        assert forall|i: int| 0 <= i < self.order@.len() implies 2 <= (#[trigger] self.order@[i]).0
            < self.nodes@.len() by {
            assert(self.has_node(self.order@[i]));
        }
        lemma_distinct_slots_bounded(self.order@, 2, self.nodes@.len() as int);
    }

    /// An empty list: the two sentinels, linked to each other.
    pub fn new() -> (list: List)
        ensures
            list.wf(),
            list.cells() == Seq::<Cell>::empty(),
            list@ == Seq::<i64>::empty(),
            forall|c: Cell| !list.has_node(c),
    {
        let mut nodes: Vec<ListNode> = Vec::new();
        nodes.push(ListNode { message_id: 0, next: Some(Cell(TAIL_SLOT)), prev: None });
        nodes.push(ListNode { message_id: 0, next: None, prev: Some(Cell(HEAD_SLOT)) });
        let list = List { count: 0, nodes, spare: Vec::new(), order: Ghost(Seq::empty()) };
        assert(list@ =~= Seq::<i64>::empty());
        list
    }

    /// The number of members.
    pub fn list_count(&self) -> (count: usize)
        ensures
            count == self.counted(),
            self.wf() ==> count == self@.len(),
    {
        self.count
    }

    /// The message id of the first member; the id 0 that the sentinels carry where the list
    /// is empty.
    pub fn list_first(&self) -> (id: i64)
        requires
            self.wf(),
        ensures
            id == if self@.len() > 0 {
                self@[0]
            } else {
                0
            },
    {
        let head = self.nodes[HEAD_SLOT];
        match head.next {
            Some(first) => {
                proof {
                    if self.order@.len() > 0 {
                        assert(self.has_node(self.order@[0]));
                    }
                }
                self.nodes[first.0].message_id
            },
            None => 0,
        }
    }

    /// Whether every handle stands for the same node, with the same message id, in `self` and
    /// in `earlier`.
    pub open spec fn keeps_nodes_of(&self, earlier: &List) -> bool {
        &&& forall|c: Cell| #[trigger] self.has_node(c) == earlier.has_node(c)
        &&& forall|c: Cell|
            earlier.has_node(c) ==> (#[trigger] self.node(c)).message_id == earlier.node(
                c,
            ).message_id
    }

    /// Whether `c` is the handle of a slot of the table: a sentinel or a node that was made
    /// in this list.
    pub closed spec fn in_table(&self, c: Cell) -> bool {
        c.0 < self.nodes@.len()
    }

    /// Whether `self` is `earlier` after `node` was cut out by the links that it held: its
    /// two neighbours point at each other and one member less is counted; where `node` lacks
    /// a neighbour, nothing has changed.
    pub open spec fn unlinked_from(&self, earlier: &List, node: Cell) -> bool {
        let links = earlier.node(node);
        if links.prev is Some && links.next is Some {
            let left = links.prev->0;
            let right = links.next->0;
            &&& self.counted() == earlier.counted().wrapping_sub(1)
            &&& self.node(left).next == Some(right)
            &&& self.node(right).prev == Some(left)
            &&& forall|c: Cell|
                earlier.in_table(c) && c != left ==> (#[trigger] self.node(c)).next
                    == earlier.node(c).next
            &&& forall|c: Cell|
                earlier.in_table(c) && c != right ==> (#[trigger] self.node(c)).prev
                    == earlier.node(c).prev
        } else {
            &&& self.counted() == earlier.counted()
            &&& forall|c: Cell| earlier.in_table(c) ==> #[trigger] self.node(c) == earlier.node(c)
        }
    }

    /// Links `node` in behind `left`, at position `pos`.
    #[verifier::rlimit(50)]
    fn insert_after(&mut self, left: Cell, node: Cell, Ghost(pos): Ghost<int>)
        requires
            old(self).wf(),
            old(self).has_node(node),
            !old(self).contains(node),
            0 <= pos <= old(self).cells().len(),
            left == before(old(self).cells(), pos),
        ensures
            final(self).wf(),
            final(self).keeps_nodes_of(old(self)),
            final(self).cells() == old(self).cells().insert(pos, node),
            final(self)@ == old(self)@.insert(pos, old(self).node(node).message_id),
    {
        let ghost order = self.order@;
        let ghost fresh_order = order.insert(pos, node);
        let ghost right_cell = after(order, pos - 1);
        let slots = self.nodes.len();
        proof {
            self.lemma_room();
            // the members and the two sentinels fit the table, so one more can be counted
            assert(self.count + 2 <= slots);
            if pos > 0 {
                assert(old(self).has_node(order[pos - 1]));
                assert(Self::ring_at(old(self).nodes@, order, pos - 1));
            }
            if pos < order.len() {
                assert(old(self).has_node(order[pos]));
                assert(Self::ring_at(old(self).nodes@, order, pos));
            }
            assert forall|i: int| 0 <= i < order.len() implies order[i] != node by {
                assert(old(self).contains(order[i]));
            }
        }
        let mut l = self.nodes[left.0];
        match l.next {
            Some(right) => {
                assert(right == right_cell);
                let mut n = self.nodes[node.0];
                n.prev = Some(left);
                n.next = Some(right);
                self.nodes.set(node.0, n);
                let mut r = self.nodes[right.0];
                r.prev = Some(node);
                self.nodes.set(right.0, r);
                l.next = Some(node);
                self.nodes.set(left.0, l);
                self.count = self.count + 1;
                self.order = Ghost(fresh_order);
                proof {
                    assert forall|i: int| 0 <= i < fresh_order.len() implies self.has_node(
                        #[trigger] fresh_order[i],
                    ) by {
                        if i < pos {
                            assert(old(self).has_node(order[i]));
                        } else if i > pos {
                            assert(old(self).has_node(order[i - 1]));
                        }
                    }
                    assert forall|i: int, j: int|
                        0 <= i < j < fresh_order.len() implies fresh_order[i] != fresh_order[j] by {
                        let a = if i < pos { i } else { i - 1 };
                        let b = if j < pos { j } else { j - 1 };
                        if i != pos && j != pos {
                            assert(fresh_order[i] == order[a] && fresh_order[j] == order[b]);
                        } else if i == pos {
                            assert(fresh_order[j] == order[b]);
                        } else {
                            assert(fresh_order[i] == order[a]);
                        }
                    }
                    assert forall|i: int| 0 <= i < fresh_order.len() implies #[trigger] Self::ring_at(
                        self.nodes@,
                        fresh_order,
                        i,
                    ) by {
                        if i < pos {
                            assert(fresh_order[i] == order[i]);
                            assert(old(self).has_node(order[i]));
                            assert(Self::ring_at(old(self).nodes@, order, i));
                            if i > 0 {
                                assert(fresh_order[i - 1] == order[i - 1]);
                            }
                            if i + 1 < pos {
                                assert(fresh_order[i + 1] == order[i + 1]);
                            }
                        } else if i > pos {
                            assert(fresh_order[i] == order[i - 1]);
                            assert(old(self).has_node(order[i - 1]));
                            assert(Self::ring_at(old(self).nodes@, order, i - 1));
                            if i + 1 < fresh_order.len() {
                                assert(fresh_order[i + 1] == order[i]);
                            }
                            if i - 1 > pos {
                                assert(fresh_order[i - 1] == order[i - 2]);
                            }
                        } else {
                            if pos > 0 {
                                assert(fresh_order[pos - 1] == order[pos - 1]);
                            }
                            if pos < order.len() {
                                assert(fresh_order[pos + 1] == order[pos]);
                            }
                        }
                    }
                    if order.len() > 0 {
                        assert(old(self).has_node(order[0]));
                        assert(old(self).has_node(order[order.len() - 1]));
                    }
                    assert(self@ =~= old(self)@.insert(pos, old(self).node(node).message_id)) by {
                        assert forall|i: int| 0 <= i < fresh_order.len() && i != pos implies self.node(
                            fresh_order[i],
                        ).message_id == old(self).node(
                            order[if i < pos {
                                i
                            } else {
                                i - 1
                            }],
                        ).message_id by {
                            if i < pos {
                                assert(old(self).has_node(order[i]));
                            } else {
                                assert(old(self).has_node(order[i - 1]));
                            }
                        }
                    }
                }
            },
            None => {},
        }
    }

    /// Links `node` in as the first member.
    pub fn list_push_first(&mut self, node: &Cell)
        requires
            old(self).wf(),
            old(self).has_node(*node),
            !old(self).contains(*node),
        ensures
            final(self).wf(),
            final(self).keeps_nodes_of(old(self)),
            final(self).cells() == seq![*node] + old(self).cells(),
            final(self)@ == seq![old(self).node(*node).message_id] + old(self)@,
    {
        self.insert_after(Cell(HEAD_SLOT), *node, Ghost(0));
        proof {
            assert(old(self).cells().insert(0, *node) =~= seq![*node] + old(self).cells());
            assert(old(self)@.insert(0, old(self).node(*node).message_id) =~= seq![
                old(self).node(*node).message_id,
            ] + old(self)@);
        }
    }

    /// Links `node` in as the last member.
    pub fn list_push_back(&mut self, node: &Cell)
        requires
            old(self).wf(),
            old(self).has_node(*node),
            !old(self).contains(*node),
        ensures
            final(self).wf(),
            final(self).keeps_nodes_of(old(self)),
            final(self).cells() == old(self).cells().push(*node),
            final(self)@ == old(self)@.push(old(self).node(*node).message_id),
    {
        let ghost len = self.order@.len() as int;
        match self.nodes[TAIL_SLOT].prev {
            Some(last) => {
                self.insert_after(last, *node, Ghost(len));
                proof {
                    assert(old(self).cells().insert(len, *node) =~= old(self).cells().push(*node));
                    assert(old(self)@.insert(len, old(self).node(*node).message_id) =~= old(
                        self,
                    )@.push(old(self).node(*node).message_id));
                }
            },
            None => {},
        }
    }

    /// Cuts `node` out by the links that it holds and counts one member less. No test is
    /// made that `node` is a member: of a member this removes it from the list; of a node that
    /// has left the list, the neighbours that it remembers are joined.
    #[verifier::rlimit(50)]
    pub fn remove(&mut self, node: &Cell)
        requires
            old(self).wf(),
            old(self).has_node(*node),
        ensures
            final(self).keeps_nodes_of(old(self)),
            final(self).unlinked_from(old(self), *node),
            old(self).contains(*node) ==> final(self).wf() && final(self).cells() == old(
                self,
            ).cells().remove(old(self).position(*node)) && final(self)@ == old(self)@.remove(
                old(self).position(*node),
            ),
            !old(self).contains(*node) ==> final(self).cells() == old(self).cells(),
    {
        let ghost order = self.order@;
        let ghost member = order.contains(*node);
        let ghost pos = order.index_of(*node);
        let ghost fresh_order = if member {
            order.remove(pos)
        } else {
            order
        };
        let n = self.nodes[node.0];
        proof {
            if member {
                assert(order[pos] == *node);
                assert(Self::ring_at(old(self).nodes@, order, pos));
                if pos > 0 {
                    assert(old(self).has_node(order[pos - 1]));
                    assert(Self::ring_at(old(self).nodes@, order, pos - 1));
                }
                if pos + 1 < order.len() {
                    assert(old(self).has_node(order[pos + 1]));
                    assert(Self::ring_at(old(self).nodes@, order, pos + 1));
                }
            }
            assert(Self::link_in_table(old(self).nodes@[node.0 as int].next, old(self).nodes@.len()));
        }
        match (n.prev, n.next) {
            (Some(left), Some(right)) => {
                let mut l = self.nodes[left.0];
                l.next = Some(right);
                self.nodes.set(left.0, l);
                let mut r = self.nodes[right.0];
                r.prev = Some(left);
                self.nodes.set(right.0, r);
                self.count = self.count.wrapping_sub(1);
                self.order = Ghost(fresh_order);
                proof {
                    if member {
                        assert forall|i: int| 0 <= i < fresh_order.len() implies self.has_node(
                            #[trigger] fresh_order[i],
                        ) by {
                            if i < pos {
                                assert(old(self).has_node(order[i]));
                            } else {
                                assert(old(self).has_node(order[i + 1]));
                            }
                        }
                        assert forall|i: int, j: int|
                            0 <= i < j < fresh_order.len() implies fresh_order[i]
                            != fresh_order[j] by {
                            let a = if i < pos { i } else { i + 1 };
                            let b = if j < pos { j } else { j + 1 };
                            assert(fresh_order[i] == order[a] && fresh_order[j] == order[b]);
                        }
                        assert forall|i: int|
                            0 <= i < fresh_order.len() implies #[trigger] Self::ring_at(
                            self.nodes@,
                            fresh_order,
                            i,
                        ) by {
                            if i < pos {
                                assert(fresh_order[i] == order[i]);
                                assert(old(self).has_node(order[i]));
                                assert(Self::ring_at(old(self).nodes@, order, i));
                                if i > 0 {
                                    assert(fresh_order[i - 1] == order[i - 1]);
                                }
                                if i + 1 < pos {
                                    assert(fresh_order[i + 1] == order[i + 1]);
                                }
                                if i + 1 == pos && pos < fresh_order.len() {
                                    assert(fresh_order[pos] == order[pos + 1]);
                                }
                            } else {
                                assert(fresh_order[i] == order[i + 1]);
                                assert(old(self).has_node(order[i + 1]));
                                assert(Self::ring_at(old(self).nodes@, order, i + 1));
                                if i + 1 < fresh_order.len() {
                                    assert(fresh_order[i + 1] == order[i + 2]);
                                }
                                if i > pos {
                                    assert(fresh_order[i - 1] == order[i]);
                                }
                                if i == pos && pos > 0 {
                                    assert(fresh_order[pos - 1] == order[pos - 1]);
                                }
                            }
                        }
                        assert(self@ =~= old(self)@.remove(pos)) by {
                            assert forall|i: int| 0 <= i < fresh_order.len() implies self.node(
                                fresh_order[i],
                            ).message_id == old(self).node(
                                order[if i < pos {
                                    i
                                } else {
                                    i + 1
                                }],
                            ).message_id by {
                                if i < pos {
                                    assert(old(self).has_node(order[i]));
                                } else {
                                    assert(old(self).has_node(order[i + 1]));
                                }
                            }
                        }
                    }
                }
            },
            _ => {},
        }
    }

    /// Takes the first member out and returns its message id.
    pub fn list_pop_first(&mut self) -> (id: i64)
        requires
            old(self).wf(),
            old(self).counted() != 0,
        ensures
            final(self).wf(),
            final(self).keeps_nodes_of(old(self)),
            id == old(self)@[0],
            final(self).cells() == old(self).cells().drop_first(),
            final(self)@ == old(self)@.drop_first(),
    {
        let ghost order = self.order@;
        proof {
            assert(old(self).has_node(order[0]));
            assert(Self::ring_at(old(self).nodes@, order, 0));
            assert(order.index_of(order[0]) == 0);
        }
        match self.nodes[HEAD_SLOT].next {
            Some(first) => {
                let id = self.nodes[first.0].message_id;
                self.remove(&first);
                proof {
                    assert(order.remove(0) =~= order.drop_first());
                    assert(old(self)@.remove(0) =~= old(self)@.drop_first());
                }
                id
            },
            None => 0,
        }
    }

    /// Takes the last member out and returns its message id.
    pub fn list_pop_last(&mut self) -> (id: i64)
        requires
            old(self).wf(),
            old(self).counted() != 0,
        ensures
            final(self).wf(),
            final(self).keeps_nodes_of(old(self)),
            id == old(self)@.last(),
            final(self).cells() == old(self).cells().drop_last(),
            final(self)@ == old(self)@.drop_last(),
    {
        let ghost order = self.order@;
        let ghost end = order.len() - 1;
        proof {
            assert(old(self).has_node(order[end]));
            assert(Self::ring_at(old(self).nodes@, order, end));
            assert(order.index_of(order[end]) == end);
        }
        match self.nodes[TAIL_SLOT].prev {
            Some(last) => {
                let id = self.nodes[last.0].message_id;
                self.remove(&last);
                proof {
                    assert(order.remove(end) =~= order.drop_last());
                    assert(old(self)@.remove(end) =~= old(self)@.drop_last());
                }
                id
            },
            None => 0,
        }
    }

    /// Gives the slot of `node`, which is no member, back to the table. The handle stands
    /// for no node from then on, and a later node may get the same handle.
    pub fn discard_node(&mut self, node: Cell)
        requires
            old(self).wf(),
            old(self).has_node(node),
            !old(self).contains(node),
        ensures
            final(self).wf(),
            final(self).cells() == old(self).cells(),
            final(self)@ == old(self)@,
            !final(self).has_node(node),
            forall|c: Cell| c != node ==> final(self).has_node(c) == old(self).has_node(c),
            forall|c: Cell| final(self).node(c) == old(self).node(c),
    {
        let ghost order = self.order@;
        self.spare.push(node);
        proof {
            assert(self.spare@[self.spare@.len() - 1] == node);
            assert forall|c: Cell| c != node implies (self.spare@.contains(c) <==> old(
                self,
            ).spare@.contains(c)) by {
                if old(self).spare@.contains(c) {
                    let j = choose|j: int|
                        0 <= j < old(self).spare@.len() && old(self).spare@[j] == c;
                    assert(self.spare@[j] == c);
                }
            }
            assert forall|i: int| 0 <= i < order.len() implies self.has_node(#[trigger] order[i]) by {
                assert(old(self).has_node(order[i]));
                assert(old(self).contains(order[i]));
            }
            assert forall|i: int| 0 <= i < order.len() implies #[trigger] Self::ring_at(
                self.nodes@,
                order,
                i,
            ) by {
                assert(Self::ring_at(old(self).nodes@, order, i));
            }
            assert(self@ =~= old(self)@);
        }
    }
}

} // verus!
