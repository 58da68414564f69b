//! The structured form of the elaborator's AST dump that the extractors
//! walk: a tree of nodes, each carrying the fields the dump's node kinds
//! use. A field a node does not carry is `None`; a missing member list is
//! the empty list.
use vstd::prelude::*;

verus! {

/// One node of the elaborated AST dump.
#[derive(Debug, PartialEq)]
pub struct AstNode {
    /// The node-kind discriminant (`Instance`, `Port`, `GenerateBlock`, ...).
    pub kind: Option<String>,
    /// Instance, block, port, package, or parameter name.
    pub name: Option<String>,
    /// Port direction (`In`, `Out`, `InOut`).
    pub direction: Option<String>,
    /// Port type descriptor text.
    pub type_desc: Option<String>,
    /// Parameter value text.
    pub value: Option<String>,
    /// Generate construct index within the enclosing scope.
    pub construct_index: Option<u64>,
    /// Whether the elaborator marked a generate block as not instantiated.
    pub is_uninstantiated: Option<bool>,
    /// Definition kind of a definition entry (`Module`, ...).
    pub definition_kind: Option<String>,
    /// The bound instance body.
    pub body: Option<Box<AstNode>>,
    /// Child members.
    pub members: Vec<AstNode>,
}

impl AstNode {
    /// A node with no fields set; a starting point for building nodes.
    pub fn empty() -> (r: AstNode)
        ensures
            r.kind is None,
            r.name is None,
            r.direction is None,
            r.type_desc is None,
            r.value is None,
            r.construct_index is None,
            r.is_uninstantiated is None,
            r.definition_kind is None,
            r.body is None,
            r.members@ =~= Seq::<AstNode>::empty(),
    {
        AstNode {
            kind: None,
            name: None,
            direction: None,
            type_desc: None,
            value: None,
            construct_index: None,
            is_uninstantiated: None,
            definition_kind: None,
            body: None,
            members: Vec::new(),
        }
    }

    /// The node's kind is the given text.
    pub open spec fn kind_is(self, k: Seq<char>) -> bool {
        self.kind is Some && self.kind->0@ == k
    }

    /// The node has a name, possibly empty.
    pub open spec fn named(self) -> bool {
        self.name is Some
    }

    /// The node has a non-empty name.
    pub open spec fn has_nonempty_name(self) -> bool {
        self.name is Some && self.name->0@.len() > 0
    }
}

/// The whole dump: the elaborated design tree and the flat definition list.
#[derive(Debug, PartialEq)]
pub struct AstDocument {
    /// The design node; its members are the top-level instances and
    /// compilation units.
    pub design: AstNode,
    /// The flat list of definition entries.
    pub definitions: Vec<AstNode>,
}

} // verus!
