//! Classes: named type descriptors with a prototype node palette and a from-text parser.
use vstd::prelude::*;
use crate::node::{Node, NodeId};

verus! {

/// Which from-text parser a class carries.
#[derive(Debug, Clone, Copy, PartialEq, Eq, Structural)]
pub enum TextParser {
    Any,
    Array,
    Bool,
    Number,
    Text,
    Subroutine,
}

/// What a socket knows of its class: the name, and the class's parser if it has one.
#[derive(Debug)]
pub struct ClassRef {
    pub name: String,
    pub parser: Option<TextParser>,
}

impl ClassRef {
    pub fn copy(&self) -> (r: ClassRef)
        ensures
            r.name@ == self.name@,
            r.parser == self.parser,
    {
        ClassRef { name: self.name.clone(), parser: self.parser }
    }
}

/// Describes a data type. `nodes` is the palette of prototype nodes (index 0 the
/// default); `obj_from_str` builds an object of the class from text.
#[derive(Debug)]
pub struct Class {
    pub name: String,
    pub nodes: Vec<Node>,
    pub obj_from_str: Option<TextParser>,
}

impl Class {
    /// Classes are equal by name alone.
    pub fn same_class(&self, other: &Class) -> (r: bool)
        ensures
            r == (self.name@ == other.name@),
    {
        self.name == other.name
    }

    /// An empty class of the given name: no prototypes and no parser.
    pub fn empty(name: &String) -> (r: Class)
        ensures
            r.name@ == name@,
            r.nodes@.len() == 0,
            r.obj_from_str is None,
    {
        Class { name: name.clone(), nodes: Vec::new(), obj_from_str: None }
    }
}

/// Description of a class declared in a program: its name and the ids of the nodes
/// that define its methods.
#[derive(Debug, Clone)]
pub struct ProtoClass {
    pub name: String,
    pub nodes: Vec<NodeId>,
}

} // verus!
