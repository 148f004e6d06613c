//! A table of doubly linked nodes with all of its nodes allocated in advance:
//! one entry node, one header per item to cover, and room for the options.

use vstd::prelude::*;

verus! {

/// What a node records about the vertical list it belongs to.
pub enum VerticalCol {
    /// For an option: the header of its list.
    HeaderId(usize),
    /// For a header: the number of options in its list.
    Count(usize),
}

/// One node of the table. A node names its four neighbours by their
/// positions in the table.
struct Node<'a, T> {
    id: usize,
    id_l: usize,
    id_r: usize,
    id_u: usize,
    id_d: usize,
    col: VerticalCol,
    udp: Option<&'a T>,
}

/// The table: the nodes linked so far, and the number of nodes that it was
/// laid out for.
pub struct Table<'a, T> {
    nodes: Vec<Node<'a, T>>,
    total_node_count: usize,
}

impl<'a, T> Node<'a, T> {
    /// `self` is a node that stands alone: every link leads back to it, and
    /// it carries no data.
    spec fn is_alone(&self, id: usize) -> bool {
        &&& self.id == id
        &&& self.id_l == id
        &&& self.id_r == id
        &&& self.id_u == id
        &&& self.id_d == id
        &&& self.col == VerticalCol::HeaderId(0)
        &&& self.udp is None
    }

    /// `self` is `other` but for its horizontal links.
    spec fn same_but_lr(&self, other: &Node<'a, T>) -> bool {
        &&& self.id == other.id
        &&& self.id_u == other.id_u
        &&& self.id_d == other.id_d
        &&& self.col == other.col
        &&& self.udp == other.udp
    }

    /// A node that stands alone.
    fn new(id: usize) -> (node: Node<'a, T>)
        ensures
            node.is_alone(id),
    {
        Node {
            id: id,
            id_l: id,
            id_r: id,
            id_u: id,
            id_d: id,
            col: VerticalCol::HeaderId(0),
            udp: None,
        }
    }
}

impl<'a, T> Table<'a, T> {
    /// Number of nodes linked so far.
    pub closed spec fn len(&self) -> nat {
        self.nodes@.len()
    }

    /// Number of nodes that the table was laid out for.
    pub closed spec fn capacity(&self) -> nat {
        self.total_node_count as nat
    }

    /// Position of the left neighbour of node `i`.
    pub closed spec fn left(&self, i: int) -> int {
        self.nodes@[i].id_l as int
    }

    /// Position of the right neighbour of node `i`.
    pub closed spec fn right(&self, i: int) -> int {
        self.nodes@[i].id_r as int
    }

    /// Node `i` knows its own position, is its own upper and lower neighbour,
    /// and carries no data.
    pub closed spec fn is_bare(&self, i: int) -> bool {
        let node = self.nodes@[i];
        &&& node.id == i
        &&& node.id_u == i
        &&& node.id_d == i
        &&& node.col == VerticalCol::HeaderId(0)
        &&& node.udp is None
    }

    /// A table with `total_header_count` headers and room for
    /// `total_option_count` options. The entry node and the headers form one
    /// horizontal ring in the order of their positions; no option is linked
    /// yet.
    pub fn new(total_header_count: usize, total_option_count: usize) -> (table: Table<'a, T>)
        requires
            1 + total_header_count + total_option_count <= usize::MAX,
        ensures
            table.len() == total_header_count + 1,
            table.capacity() == 1 + total_header_count + total_option_count,
            forall|i: int|
                #![trigger table.left(i)]
                #![trigger table.right(i)]
                #![trigger table.is_bare(i)]
                0 <= i <= total_header_count ==> {
                    &&& table.left(i) == (if i == 0 {
                        total_header_count as int
                    } else {
                        i - 1
                    })
                    &&& table.right(i) == (if i == total_header_count {
                        0
                    } else {
                        i + 1
                    })
                    &&& table.is_bare(i)
                },
    {
        let reserved_node_count = 1 + total_header_count + total_option_count;
        let mut nodes: Vec<Node<'a, T>> = Vec::with_capacity(reserved_node_count);
        nodes.push(Node::new(0));
        let mut i: usize = 1;
        while i <= total_header_count
            invariant
                1 <= i <= total_header_count + 1,
                total_header_count < usize::MAX,
                nodes@.len() == i,
                forall|k: int|
                    0 <= k < i ==> {
                        &&& (#[trigger] nodes@[k]).id_l == (if k == 0 {
                            i - 1
                        } else {
                            k - 1
                        })
                        &&& nodes@[k].id_r == (if k == i - 1 {
                            0
                        } else {
                            k + 1
                        })
                        &&& nodes@[k].id == k
                        &&& nodes@[k].id_u == k
                        &&& nodes@[k].id_d == k
                        &&& nodes@[k].col == VerticalCol::HeaderId(0)
                        &&& nodes@[k].udp is None
                    },
            decreases total_header_count + 1 - i,
        {
            nodes.push(Node::new(i));
            Self::link_lr(&mut nodes, i - 1, i);
            i += 1;
        }
        Table { nodes: nodes, total_node_count: reserved_node_count }
    }

    /// Number of nodes linked so far.
    pub fn linked_count(&self) -> (count: usize)
        ensures
            count == self.len(),
    {
        self.nodes.len()
    }

    /// Number of nodes that the table was laid out for.
    pub fn reserved_count(&self) -> (count: usize)
        ensures
            count == self.capacity(),
    {
        self.total_node_count
    }

    /// Position of the left neighbour of node `i`.
    pub fn left_of(&self, i: usize) -> (id: usize)
        requires
            i < self.len(),
        ensures
            id == self.left(i as int),
    {
        self.nodes[i].id_l
    }

    /// Position of the right neighbour of node `i`.
    pub fn right_of(&self, i: usize) -> (id: usize)
        requires
            i < self.len(),
        ensures
            id == self.right(i as int),
    {
        self.nodes[i].id_r
    }

    /// Links node `id` into the horizontal list behind node `end`: between
    /// `end` and what was its right neighbour.
    fn link_lr(nodes: &mut Vec<Node<'a, T>>, end: usize, id: usize)
        requires
            end < old(nodes)@.len(),
            id < old(nodes)@.len(),
            old(nodes)@[end as int].id_r < old(nodes)@.len(),
        ensures
            final(nodes)@.len() == old(nodes)@.len(),
            forall|k: int|
                0 <= k < old(nodes)@.len() ==> {
                    &&& (#[trigger] final(nodes)@[k]).id_l == (if k == old(nodes)@[end as int].id_r {
                        id
                    } else if k == id {
                        end
                    } else {
                        old(nodes)@[k].id_l
                    })
                    &&& final(nodes)@[k].id_r == (if k == end {
                        id
                    } else if k == id {
                        old(nodes)@[end as int].id_r
                    } else {
                        old(nodes)@[k].id_r
                    })
                    &&& final(nodes)@[k].same_but_lr(&old(nodes)@[k])
                },
    {
        let id_r = nodes[end].id_r;
        nodes[id].id_l = end;
        nodes[id].id_r = id_r;
        nodes[end].id_r = id;
        nodes[id_r].id_l = id;
    }
}

} // verus!
