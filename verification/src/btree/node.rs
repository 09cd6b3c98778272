//! The tagged node type: every page holds either a leaf or an internal
//! node, told apart by the first byte of the page.

use crate::btree::intern::{spec_intern_bytes, spec_intern_of_bytes, Intern, InternV};
use crate::btree::leaf::{spec_leaf_bytes, spec_leaf_of_bytes, Leaf, LeafV};
use crate::error::ExecErr;
use crate::pager::PAGE_SIZE;
use vstd::prelude::*;

verus! {

/// One node of the tree.
pub enum Node {
    Leaf(Leaf),
    Intern(Intern),
}

/// The mathematical content of a node.
#[verifier::ext_equal]
pub enum NodeV {
    Leaf(LeafV),
    Intern(InternV),
}

impl View for Node {
    type V = NodeV;

    open spec fn view(&self) -> NodeV {
        match self {
            Node::Leaf(l) => NodeV::Leaf(l@),
            Node::Intern(i) => NodeV::Intern(i@),
        }
    }
}

/// Well-formedness of a node, by variant.
pub open spec fn node_wf(v: NodeV) -> bool {
    match v {
        NodeV::Leaf(l) => Leaf::wf_v(l),
        NodeV::Intern(i) => Intern::wf_v(i),
    }
}

/// The root flag of a node.
pub open spec fn spec_is_root(v: NodeV) -> bool {
    match v {
        NodeV::Leaf(l) => l.is_root,
        NodeV::Intern(i) => i.is_root,
    }
}

/// The parent page of a node.
pub open spec fn spec_parent(v: NodeV) -> Option<usize> {
    match v {
        NodeV::Leaf(l) => l.parent,
        NodeV::Intern(i) => i.parent,
    }
}

/// The page image of a node.
pub open spec fn spec_node_bytes(v: NodeV) -> Seq<u8> {
    match v {
        NodeV::Leaf(l) => spec_leaf_bytes(l),
        NodeV::Intern(i) => spec_intern_bytes(i),
    }
}

/// The node stored by a page image: the first byte picks the variant.
pub open spec fn spec_node_of_bytes(b: Seq<u8>) -> Option<NodeV>
    recommends
        b.len() == PAGE_SIZE,
{
    if b[0] != 0 {
        match spec_leaf_of_bytes(b) {
            None => None,
            Some(l) => Some(NodeV::Leaf(l)),
        }
    } else {
        match spec_intern_of_bytes(b) {
            None => None,
            Some(i) => Some(NodeV::Intern(i)),
        }
    }
}

/// Decoding an encoded well-formed node yields the node back.
pub proof fn lemma_node_round_trip(v: NodeV)
    requires
        node_wf(v),
    ensures
        spec_node_bytes(v).len() == PAGE_SIZE,
        spec_node_of_bytes(spec_node_bytes(v)) == Some(v),
{
    match v {
        NodeV::Leaf(l) => {
            crate::btree::leaf::lemma_leaf_round_trip(l);
            assert(spec_node_bytes(v)[0] == 1u8);
        },
        NodeV::Intern(i) => {
            crate::btree::intern::lemma_intern_round_trip(i);
            assert(spec_node_bytes(v)[0] == 0u8);
        },
    }
}

/// Re-encoding what a page image decodes to yields the image back, for any
/// image that an encode produced.
pub proof fn lemma_page_reencode(v: NodeV)
    requires
        node_wf(v),
    ensures
        spec_node_of_bytes(spec_node_bytes(v)) matches Some(v2) && spec_node_bytes(v2)
            == spec_node_bytes(v),
{
    lemma_node_round_trip(v);
}

impl Node {
    /// Well-formedness of this node.
    pub open spec fn wf(&self) -> bool {
        node_wf(self@)
    }

    /// Is this node a leaf?
    pub fn is_leaf(&self) -> (r: bool)
        ensures
            r == (self@ is Leaf),
    {
        match self {
            Node::Intern(_) => false,
            Node::Leaf(_) => true,
        }
    }

    /// The root flag.
    pub fn get_is_root(&self) -> (r: bool)
        ensures
            r == spec_is_root(self@),
    {
        match self {
            Node::Intern(nd) => nd.is_root,
            Node::Leaf(nd) => nd.is_root,
        }
    }

    /// Set the root flag.
    pub fn set_is_root(&mut self, is_root: bool)
        ensures
            spec_is_root(final(self)@) == is_root,
            spec_parent(final(self)@) == spec_parent(old(self)@),
            final(self)@ is Leaf == old(self)@ is Leaf,
            final(self)@ matches NodeV::Leaf(l) ==> old(self)@ matches NodeV::Leaf(l0) && l
                == (LeafV { is_root, ..l0 }),
            final(self)@ matches NodeV::Intern(i) ==> old(self)@ matches NodeV::Intern(i0) && i
                == (InternV { is_root, ..i0 }),
    {
        match self {
            Node::Intern(nd) => nd.is_root = is_root,
            Node::Leaf(nd) => nd.is_root = is_root,
        }
    }

    /// The parent page.
    pub fn get_parent(&self) -> (r: Option<usize>)
        ensures
            r == spec_parent(self@),
    {
        match self {
            Node::Intern(nd) => nd.parent,
            Node::Leaf(nd) => nd.parent,
        }
    }

    /// Set the parent page.
    pub fn set_parent(&mut self, parent: Option<usize>)
        ensures
            spec_parent(final(self)@) == parent,
            spec_is_root(final(self)@) == spec_is_root(old(self)@),
            final(self)@ is Leaf == old(self)@ is Leaf,
            final(self)@ matches NodeV::Leaf(l) ==> old(self)@ matches NodeV::Leaf(l0) && l
                == (LeafV { parent, ..l0 }),
            final(self)@ matches NodeV::Intern(i) ==> old(self)@ matches NodeV::Intern(i0) && i
                == (InternV { parent, ..i0 }),
    {
        match self {
            Node::Intern(nd) => nd.parent = parent,
            Node::Leaf(nd) => nd.parent = parent,
        }
    }

    /// Decode a node from a page image.
    pub fn new_from_page(page: &Vec<u8>) -> (r: Result<Self, ExecErr>)
        requires
            page@.len() == PAGE_SIZE,
        ensures
            match r {
                Ok(n) => spec_node_of_bytes(page@) == Some(n@),
                Err(e) => spec_node_of_bytes(page@) is None && e is NodeError,
            },
    {
        let is_leaf = crate::btree::utils::read_bool_from(page, 0);
        if is_leaf {
            match Leaf::new_from_page(page) {
                Ok(l) => Ok(Node::Leaf(l)),
                Err(e) => Err(e),
            }
        } else {
            match Intern::new_from_page(page) {
                Ok(i) => Ok(Node::Intern(i)),
                Err(e) => Err(e),
            }
        }
    }

    /// Encode the node into its page image.
    pub fn serialize(&self) -> (r: Vec<u8>)
        requires
            match self@ {
                NodeV::Leaf(l) => Leaf::cells_ok(l),
                NodeV::Intern(i) => Intern::children_ok(i),
            },
        ensures
            r@ == spec_node_bytes(self@),
            r@.len() == PAGE_SIZE,
    {
        match self {
            Node::Intern(nd) => nd.serialize(),
            Node::Leaf(nd) => nd.serialize(),
        }
    }

    /// Borrow the leaf inside, or report a node-type mismatch.
    pub fn as_leaf(&self) -> (r: Result<&Leaf, ExecErr>)
        ensures
            match r {
                Ok(l) => self@ matches NodeV::Leaf(lv) && l@ == lv,
                Err(e) => self@ is Intern && e is NodeError,
            },
    {
        match self {
            Node::Intern(_) => Err(ExecErr::NodeError(String::from_str("Not Leaf"))),
            Node::Leaf(nd) => Ok(nd),
        }
    }

    /// Borrow the leaf inside mutably; the caller must know the variant.
    pub fn as_leaf_mut(&mut self) -> (r: &mut Leaf)
        requires
            old(self)@ is Leaf,
        ensures
            old(self)@ matches NodeV::Leaf(lv) && r@ == lv,
            final(self)@ == NodeV::Leaf(final(r)@),
    {
        match self {
            Node::Leaf(nd) => nd,
            Node::Intern(_) => vstd::pervasive::unreached(),
        }
    }

    /// Borrow the internal node inside, or report a node-type mismatch.
    pub fn as_intern(&self) -> (r: Result<&Intern, ExecErr>)
        ensures
            match r {
                Ok(i) => self@ matches NodeV::Intern(iv) && i@ == iv,
                Err(e) => self@ is Leaf && e is NodeError,
            },
    {
        match self {
            Node::Leaf(_) => Err(ExecErr::NodeError(String::from_str("Not Intern"))),
            Node::Intern(nd) => Ok(nd),
        }
    }

    /// Borrow the internal node inside mutably; the caller must know the
    /// variant.
    pub fn as_intern_mut(&mut self) -> (r: &mut Intern)
        requires
            old(self)@ is Intern,
        ensures
            old(self)@ matches NodeV::Intern(iv) && r@ == iv,
            final(self)@ == NodeV::Intern(final(r)@),
    {
        match self {
            Node::Intern(nd) => nd,
            Node::Leaf(_) => vstd::pervasive::unreached(),
        }
    }

    /// Check well-formedness of a decoded node, for validation at open.
    pub fn check_wf(&self) -> (b: bool)
        ensures
            b == node_wf(self@),
    {
        match self {
            Node::Leaf(nd) => nd.check_wf(),
            Node::Intern(nd) => nd.check_wf(),
        }
    }
}

} // verus!
