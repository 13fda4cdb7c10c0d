//! Node identifiers: within one program, across programs, and of a node's branches.
use vstd::prelude::*;
use crate::module::{
    lemma_module_path_round_trip, parsed_path, path_text, path_valid, ModulePath,
    ModulePathParseError,
};
use crate::socket::{InputSocket, OutputSocket};
use crate::stdlib::{
    class_ref_named, parser_for, variant_read, variant_text, ArrayConstructor, BoolNode,
    EndNode, IfNode, NopNode, NumberNode, Print, StartNode, StringNode, SubroutineCall,
    SubroutineCallTarget, VariableGet, VariableSet, VariantParseError,
};
use crate::text::{
    free_of, lemma_concat_free, lemma_join_free,
    all_digits, chars_of, copy_strings, lemma_deep_view_is_map, lemma_deep_view_push, decimal_text, digits_value, is_digit, last_index, last_index_of,
    lemma_decimal_text_digits, lemma_digits_free, lemma_last_index_append,
    lemma_last_index_bounds, parse_decimal, push_char, push_decimal,
};

verus! {

/// ID of a node, unique within one program.
pub type NodeId = u32;

/// The text of an absolute node id: the program path, `@`, the node id in decimal.
pub open spec fn abs_id_text(segs: Seq<Seq<char>>, leaf: Seq<char>, id: nat) -> Seq<char> {
    path_text(segs, leaf) + seq!['@'] + decimal_text(id)
}

#[derive(Debug, Clone, PartialEq, Eq)]
pub enum AbsoluteNodeIdParseError {
    IdNotFound,
    NodeIdParseError,
    ProgramIdParseError(ModulePathParseError),
}

/// What reading a text as an absolute node id gives: split on the last `@`, the right
/// side a decimal that fits in 32 bits, the left side a module path.
pub open spec fn parsed_abs_id(s: Seq<char>) -> Result<
    (Seq<Seq<char>>, Seq<char>, nat),
    AbsoluteNodeIdParseError,
> {
    let k = last_index_of(s, '@');
    let right = s.subrange(k + 1, s.len() as int);
    if k < 0 {
        Err(AbsoluteNodeIdParseError::IdNotFound)
    } else if !(right.len() > 0 && all_digits(right) && digits_value(right) <= u32::MAX) {
        Err(AbsoluteNodeIdParseError::NodeIdParseError)
    } else {
        match parsed_path(s.subrange(0, k)) {
            None => Err(
                AbsoluteNodeIdParseError::ProgramIdParseError(ModulePathParseError::NotEnoughItems),
            ),
            Some(p) => Ok((p.0, p.1, digits_value(right))),
        }
    }
}

/// An absolute node id as plain values: program path segments, leaf, node id.
pub type AbsIdView = (Seq<Seq<char>>, Seq<char>, nat);

/// An ID that points to a node in some loaded program.
#[derive(Debug, Clone)]
pub struct AbsoluteNodeId(pub ModulePath, pub NodeId);

impl AbsoluteNodeId {
    pub open spec fn id_view(&self) -> AbsIdView {
        (self.0.segs(), self.0.leaf(), self.1 as nat)
    }

    pub fn copy(&self) -> (r: AbsoluteNodeId)
        ensures
            r.id_view() == self.id_view(),
    {
        AbsoluteNodeId(ModulePath(copy_strings(&self.0.0), self.0.1.clone()), self.1)
    }

    pub open spec fn text(&self) -> Seq<char> {
        abs_id_text(self.0.segs(), self.0.leaf(), self.1 as nat)
    }

    /// Reads `<program_path>@<node_id>`.
    pub fn parse(s: &str) -> (r: Result<AbsoluteNodeId, AbsoluteNodeIdParseError>)
        ensures
            match parsed_abs_id(s@) {
                Ok(p) => r is Ok && r->Ok_0.0.segs() == p.0 && r->Ok_0.0.leaf() == p.1
                    && r->Ok_0.1 == p.2,
                Err(e) => r == Err::<AbsoluteNodeId, AbsoluteNodeIdParseError>(e),
            },
    {
        let v = chars_of(s);
        Self::parse_chars(&v)
    }

    pub fn parse_chars(v: &Vec<char>) -> (r: Result<AbsoluteNodeId, AbsoluteNodeIdParseError>)
        ensures
            match parsed_abs_id(v@) {
                Ok(p) => r is Ok && r->Ok_0.0.segs() == p.0 && r->Ok_0.0.leaf() == p.1
                    && r->Ok_0.1 == p.2,
                Err(e) => r == Err::<AbsoluteNodeId, AbsoluteNodeIdParseError>(e),
            },
    {
        proof {
            lemma_last_index_bounds(v@, '@');
        }
        match last_index(v, '@') {
            None => Err(AbsoluteNodeIdParseError::IdNotFound),
            Some(k) => {
                assert(k < v.len());
                match parse_decimal(v, k + 1, v.len(), 0xFFFF_FFFF) {
                    None => Err(AbsoluteNodeIdParseError::NodeIdParseError),
                    Some(id) => {
                        match ModulePath::parse_chars(v, 0, k) {
                            Err(e) => Err(AbsoluteNodeIdParseError::ProgramIdParseError(e)),
                            Ok(path) => Ok(AbsoluteNodeId(path, id as u32)),
                        }
                    },
                }
            },
        }
    }

    /// Appends `<program_path>@<node_id>` to `out`.
    pub fn write_text(&self, out: &mut String)
        ensures
            final(out)@ == old(out)@ + self.text(),
    {
        let ghost start = out@;
        self.0.write_text(out);
        push_char(out, '@');
        push_decimal(out, self.1 as u64);
        assert(out@ =~= start + self.text());
    }

    pub fn to_text(&self) -> (r: String)
        ensures
            r@ == self.text(),
    {
        let mut r = String::new();
        self.write_text(&mut r);
        assert(r@ =~= self.text());
        r
    }

    pub fn same_as(&self, other: &AbsoluteNodeId) -> (r: bool)
        ensures
            r == (self.0.segs() == other.0.segs() && self.0.leaf() == other.0.leaf() && self.1
                == other.1),
    {
        self.1 == other.1 && self.0.same_as(&other.0)
    }
}

/// Reading the text of an absolute node id with a valid program path gives it back.
pub proof fn lemma_abs_id_round_trip(segs: Seq<Seq<char>>, leaf: Seq<char>, id: nat)
    requires
        path_valid(segs, leaf),
        id <= u32::MAX,
    ensures
        parsed_abs_id(abs_id_text(segs, leaf, id)) == Ok::<
            (Seq<Seq<char>>, Seq<char>, nat),
            AbsoluteNodeIdParseError,
        >((segs, leaf, id)),
{
    let a = path_text(segs, leaf);
    let d = decimal_text(id);
    let s = abs_id_text(segs, leaf, id);
    lemma_decimal_text_digits(id);
    assert(!is_digit('@'));
    lemma_digits_free(d, '@');
    lemma_last_index_append(a, d, '@');
    assert(s.subrange(a.len() + 1 as int, s.len() as int) =~= d);
    assert(s.subrange(0, a.len() as int) =~= a);
    lemma_module_path_round_trip(segs, leaf);
}

/// An absolute node id's text is free of a character that is no dot, no `@` and no
/// digit, and that no part of its path holds.
pub proof fn lemma_abs_id_text_free(segs: Seq<Seq<char>>, leaf: Seq<char>, id: nat, c: char)
    requires
        c != '.',
        c != '@',
        !is_digit(c),
        free_of(leaf, c),
        forall|i: int| 0 <= i < segs.len() ==> free_of(#[trigger] segs[i], c),
    ensures
        free_of(abs_id_text(segs, leaf, id), c),
{
    let parts = segs.push(leaf);
    assert forall|i: int| 0 <= i < parts.len() implies free_of(#[trigger] parts[i], c) by {
        if i < segs.len() {
            assert(parts[i] == segs[i]);
        }
    }
    lemma_join_free(parts, '.', c);
    lemma_decimal_text_digits(id);
    lemma_digits_free(decimal_text(id), c);
    lemma_concat_free(path_text(segs, leaf), seq!['@'], c);
    lemma_concat_free(path_text(segs, leaf) + seq!['@'], decimal_text(id), c);
}

/// The packed 64-bit form of a (node id, index) pair: node id high, index low.
pub open spec fn packed(node: nat, idx: nat) -> nat {
    node * 0x1_0000_0000 + idx
}

pub proof fn lemma_unpack(node: nat, idx: nat)
    requires
        idx < 0x1_0000_0000,
    ensures
        packed(node, idx) / 0x1_0000_0000 == node,
        packed(node, idx) % 0x1_0000_0000 == idx,
{
    vstd::arithmetic::div_mod::lemma_fundamental_div_mod_converse(
        packed(node, idx) as int,
        0x1_0000_0000,
        node as int,
        idx as int,
    );
}

pub fn pack_u64(node: u32, idx: u32) -> (r: u64)
    ensures
        r == packed(node as nat, idx as nat),
{
    let hi = node as u64;
    let lo = idx as u64;
    assert(hi << 32u64 | lo == hi * 0x1_0000_0000 + lo) by (bit_vector)
        requires
            hi <= 0xFFFF_FFFF,
            lo <= 0xFFFF_FFFF,
    ;
    hi << 32u64 | lo
}

pub fn unpack_u64(n: u64) -> (r: (u32, u32))
    ensures
        r.0 == n / 0x1_0000_0000,
        r.1 == n % 0x1_0000_0000,
{
    assert(n >> 32u64 == n / 0x1_0000_0000) by (bit_vector);
    assert(n & 0xFFFF_FFFFu64 == n % 0x1_0000_0000) by (bit_vector);
    ((n >> 32u64) as u32, (n & 0xFFFF_FFFFu64) as u32)
}

/// ID of a branch of a node: the node and the branch index.
#[derive(Debug, Clone, Copy, PartialEq, Eq, Hash)]
pub struct NodeBranchId(pub NodeId, pub usize);

impl NodeBranchId {
    /// The packed form: node id in the high 32 bits, branch index in the low 32.
    pub fn to_u64(&self) -> (r: u64)
        requires
            self.1 <= u32::MAX,
        ensures
            r == packed(self.0 as nat, self.1 as nat),
    {
        pack_u64(self.0, self.1 as u32)
    }

    pub fn from_u64(n: u64) -> (r: NodeBranchId)
        ensures
            r.0 == n / 0x1_0000_0000,
            r.1 == n % 0x1_0000_0000,
    {
        let (node, idx) = unpack_u64(n);
        NodeBranchId(node, idx as usize)
    }
}

/// Packing a branch id and unpacking it gives it back.
pub proof fn lemma_branch_id_round_trip(b: NodeBranchId)
    requires
        b.1 <= u32::MAX,
    ensures
        packed(b.0 as nat, b.1 as nat) / 0x1_0000_0000 == b.0,
        packed(b.0 as nat, b.1 as nat) % 0x1_0000_0000 == b.1,
{
    lemma_unpack(b.0 as nat, b.1 as nat);
}

/// A node as plain values: which standard node it is, and its variant's parameters.
pub enum NodeView {
    Nop,
    If,
    Print(bool, nat),
    Start(Seq<char>, Seq<Seq<char>>),
    End(Seq<Seq<char>>),
    Array(nat),
    Bool,
    Number,
    Text,
    VariableGet,
    VariableSet,
    Supplied,
    Fixed(AbsIdView, AbsIdView),
}

/// A node instance: one of the standard library's nodes.
#[derive(Debug)]
pub enum Node {
    Nop(NopNode),
    If(IfNode),
    Print(Print),
    Start(StartNode),
    End(EndNode),
    Array(ArrayConstructor),
    Bool(BoolNode),
    Number(NumberNode),
    Text(StringNode),
    VariableGet(VariableGet),
    VariableSet(VariableSet),
    Subroutine(SubroutineCall),
}

/// The name of the class of each node.
pub open spec fn node_class_name(v: NodeView) -> Seq<char> {
    match v {
        NodeView::Nop => "nop"@,
        NodeView::If => "if"@,
        NodeView::Print(_, _) => "print"@,
        NodeView::Start(_, _) => "start"@,
        NodeView::End(_) => "end"@,
        NodeView::Array(_) => "array"@,
        NodeView::Bool => "bool"@,
        NodeView::Number => "number"@,
        NodeView::Text => "string"@,
        NodeView::VariableGet => "variable_get"@,
        NodeView::VariableSet => "variable_set"@,
        NodeView::Supplied => "subroutine"@,
        NodeView::Fixed(_, _) => "subroutine"@,
    }
}

/// The class names of a node's inputs.
pub open spec fn input_names(v: NodeView) -> Seq<Seq<char>> {
    match v {
        NodeView::If => seq!["bool"@],
        NodeView::Print(_, n) => Seq::new(n, |i: int| "any"@),
        NodeView::End(ins) => ins,
        NodeView::Array(n) => Seq::new(n, |i: int| "any"@),
        NodeView::Bool => seq!["any"@],
        NodeView::Number => seq!["any"@],
        NodeView::Text => seq!["any"@],
        NodeView::VariableGet => seq!["string"@],
        NodeView::VariableSet => seq!["string"@, "any"@],
        NodeView::Supplied => seq!["subroutine"@, "from_supplied_subroutine"@],
        NodeView::Fixed(a, _) => seq!["subroutine_input@"@ + abs_id_text(a.0, a.1, a.2)],
        _ => Seq::<Seq<char>>::empty(),
    }
}

/// The class names of a node's outputs.
pub open spec fn output_names(v: NodeView) -> Seq<Seq<char>> {
    match v {
        NodeView::Start(_, outs) => outs,
        NodeView::Array(_) => seq!["array"@],
        NodeView::Bool => seq!["bool"@],
        NodeView::Number => seq!["number"@],
        NodeView::Text => seq!["string"@],
        NodeView::VariableGet => seq!["any"@],
        NodeView::Supplied => seq!["from_supplied_subroutine"@],
        NodeView::Fixed(_, b) => seq!["subroutine_output@"@ + abs_id_text(b.0, b.1, b.2)],
        _ => Seq::<Seq<char>>::empty(),
    }
}

/// `n` copies of a literal.
fn repeated(lit: &str, n: usize) -> (r: Vec<String>)
    ensures
        r.deep_view() == Seq::new(n as nat, |i: int| lit@),
{
    let mut r: Vec<String> = Vec::new();
    let mut i: usize = 0;
    while i < n
        invariant
            i <= n,
            r.deep_view() == Seq::new(i as nat, |j: int| lit@),
        decreases n - i,
    {
        let ghost before = r@;
        proof {
            lemma_deep_view_is_map(r);
        }
        let x = String::from_str(lit);
        r.push(x);
        proof {
            lemma_deep_view_push(before, r, x);
        }
        i = i + 1;
        assert(r.deep_view() =~= Seq::new(i as nat, |j: int| lit@));
    }
    r
}

fn one_name(a: &str) -> (r: Vec<String>)
    ensures
        r.deep_view() == seq![a@],
{
    let mut r: Vec<String> = Vec::new();
    r.push(String::from_str(a));
    assert(r.deep_view() =~= seq![a@]);
    r
}

fn two_names(a: &str, b: &str) -> (r: Vec<String>)
    ensures
        r.deep_view() == seq![a@, b@],
{
    let mut r: Vec<String> = Vec::new();
    r.push(String::from_str(a));
    r.push(String::from_str(b));
    assert(r.deep_view() =~= seq![a@, b@]);
    r
}

/// `prefix` followed by the text of an absolute node id, as a one-name list.
fn tagged_name(prefix: &str, id: &AbsoluteNodeId) -> (r: Vec<String>)
    ensures
        r.deep_view() == seq![prefix@ + id.text()],
{
    let mut s = String::from_str(prefix);
    id.write_text(&mut s);
    let mut r: Vec<String> = Vec::new();
    r.push(s);
    assert(r.deep_view() =~= seq![prefix@ + id.text()]);
    r
}

pub fn input_sockets(names: &Vec<String>) -> (r: Vec<InputSocket>)
    ensures
        r@.len() == names@.len(),
        forall|i: int|
            0 <= i < names@.len() ==> (#[trigger] r@[i]).class.name@ == names.deep_view()[i]
                && r@[i].class.parser == parser_for(names.deep_view()[i]),
{
    let mut r: Vec<InputSocket> = Vec::new();
    let mut i: usize = 0;
    while i < names.len()
        invariant
            i <= names@.len(),
            r@.len() == i,
            forall|j: int|
                0 <= j < i ==> (#[trigger] r@[j]).class.name@ == names.deep_view()[j]
                    && r@[j].class.parser == parser_for(names.deep_view()[j]),
        decreases names@.len() - i,
    {
        r.push(InputSocket { class: class_ref_named(&names[i]) });
        i = i + 1;
    }
    r
}

pub fn output_sockets(names: &Vec<String>) -> (r: Vec<OutputSocket>)
    ensures
        r@.len() == names@.len(),
        forall|i: int|
            0 <= i < names@.len() ==> (#[trigger] r@[i]).class.name@ == names.deep_view()[i]
                && r@[i].class.parser == parser_for(names.deep_view()[i]),
{
    let mut r: Vec<OutputSocket> = Vec::new();
    let mut i: usize = 0;
    while i < names.len()
        invariant
            i <= names@.len(),
            r@.len() == i,
            forall|j: int|
                0 <= j < i ==> (#[trigger] r@[j]).class.name@ == names.deep_view()[j]
                    && r@[j].class.parser == parser_for(names.deep_view()[j]),
        decreases names@.len() - i,
    {
        r.push(OutputSocket { class: class_ref_named(&names[i]) });
        i = i + 1;
    }
    r
}

/// The variant names a node offers: its fixed names, and its current variant where that
/// is parametric.
pub open spec fn variant_names(v: NodeView) -> Seq<Seq<char>> {
    match v {
        NodeView::Nop => seq!["nop"@],
        NodeView::If => seq!["if"@],
        NodeView::Print(_, _) => seq!["print"@, "println"@, variant_text(v)],
        NodeView::Start(_, _) => seq![
            "start#default#"@ + crate::stdlib::ron_list_text(Seq::<Seq<char>>::empty()),
            variant_text(v),
        ],
        NodeView::End(_) => seq![
            "end"@ + crate::stdlib::ron_list_text(Seq::<Seq<char>>::empty()),
            variant_text(v),
        ],
        NodeView::Array(_) => seq![variant_text(v)],
        NodeView::Bool => seq!["from-object"@],
        NodeView::Number => seq!["from-object"@],
        NodeView::Text => seq!["from-object"@],
        NodeView::VariableGet => seq!["get"@],
        NodeView::VariableSet => seq!["set"@],
        NodeView::Supplied => seq![variant_text(v)],
        NodeView::Fixed(_, _) => seq![variant_text(v), "supplied"@],
    }
}

impl Node {
    pub open spec fn view(&self) -> NodeView {
        match self {
            Node::Nop(_) => NodeView::Nop,
            Node::If(_) => NodeView::If,
            Node::Print(p) => NodeView::Print(p.ln, p.amount as nat),
            Node::Start(s) => s.node_view(),
            Node::End(e) => e.node_view(),
            Node::Array(a) => NodeView::Array(a.0 as nat),
            Node::Bool(_) => NodeView::Bool,
            Node::Number(_) => NodeView::Number,
            Node::Text(_) => NodeView::Text,
            Node::VariableGet(_) => NodeView::VariableGet,
            Node::VariableSet(_) => NodeView::VariableSet,
            Node::Subroutine(c) => c.node_view(),
        }
    }

    /// A fresh, independent node equal to this one.
    pub fn clone_node(&self) -> (r: Node)
        ensures
            r.view() == self.view(),
    {
        match self {
            Node::Nop(_) => Node::Nop(NopNode),
            Node::If(_) => Node::If(IfNode),
            Node::Print(p) => Node::Print(Print { ln: p.ln, amount: p.amount }),
            Node::Start(s) => Node::Start(
                StartNode { outputs: copy_strings(&s.outputs), name: s.name.clone() },
            ),
            Node::End(e) => Node::End(EndNode(copy_strings(&e.0))),
            Node::Array(a) => Node::Array(ArrayConstructor(a.0)),
            Node::Bool(_) => Node::Bool(BoolNode),
            Node::Number(_) => Node::Number(NumberNode),
            Node::Text(_) => Node::Text(StringNode),
            Node::VariableGet(_) => Node::VariableGet(VariableGet),
            Node::VariableSet(_) => Node::VariableSet(VariableSet),
            Node::Subroutine(c) => match &c.0 {
                SubroutineCallTarget::Supplied => Node::Subroutine(
                    SubroutineCall(SubroutineCallTarget::Supplied),
                ),
                SubroutineCallTarget::Fixed(sub) => Node::Subroutine(
                    SubroutineCall(SubroutineCallTarget::Fixed(sub.copy())),
                ),
            },
        }
    }

    /// The name of the node's class.
    pub fn class_name(&self) -> (r: String)
        ensures
            r@ == node_class_name(self.view()),
    {
        match self {
            Node::Nop(_) => String::from_str("nop"),
            Node::If(_) => String::from_str("if"),
            Node::Print(_) => String::from_str("print"),
            Node::Start(_) => String::from_str("start"),
            Node::End(_) => String::from_str("end"),
            Node::Array(_) => String::from_str("array"),
            Node::Bool(_) => String::from_str("bool"),
            Node::Number(_) => String::from_str("number"),
            Node::Text(_) => String::from_str("string"),
            Node::VariableGet(_) => String::from_str("variable_get"),
            Node::VariableSet(_) => String::from_str("variable_set"),
            Node::Subroutine(_) => String::from_str("subroutine"),
        }
    }

    /// The currently selected variant, as text.
    pub fn current_variant(&self) -> (r: String)
        ensures
            r@ == variant_text(self.view()),
    {
        match self {
            Node::Nop(_) => String::from_str("nop"),
            Node::If(_) => String::from_str("if"),
            Node::Print(p) => p.current_variant(),
            Node::Start(s) => s.current_variant(),
            Node::End(e) => e.current_variant(),
            Node::Array(a) => a.current_variant(),
            Node::Bool(_) => String::from_str("from-object"),
            Node::Number(_) => String::from_str("from-object"),
            Node::Text(_) => String::from_str("from-object"),
            Node::VariableGet(_) => String::from_str("get"),
            Node::VariableSet(_) => String::from_str("set"),
            Node::Subroutine(c) => c.current_variant(),
        }
    }

    /// The variant names the node offers.
    pub fn variants(&self) -> (r: Vec<String>)
        ensures
            r.deep_view() == variant_names(self.view()),
    {
        let current = self.current_variant();
        let mut r: Vec<String> = Vec::new();
        match self {
            Node::Print(_) => {
                r.push(String::from_str("print"));
                r.push(String::from_str("println"));
                r.push(current);
            },
            Node::Start(_) => {
                let mut d = String::from_str("start#default#");
                let empty: Vec<String> = Vec::new();
                assert(empty.deep_view() =~= Seq::<Seq<char>>::empty());
                let list = crate::stdlib::ron_list(&empty);
                crate::text::push_str(&mut d, &list);
                r.push(d);
                r.push(current);
            },
            Node::End(_) => {
                let mut d = String::from_str("end");
                let empty: Vec<String> = Vec::new();
                assert(empty.deep_view() =~= Seq::<Seq<char>>::empty());
                let list = crate::stdlib::ron_list(&empty);
                crate::text::push_str(&mut d, &list);
                r.push(d);
                r.push(current);
            },
            Node::Subroutine(c) => {
                let fixed = match &c.0 {
                    SubroutineCallTarget::Fixed(_) => true,
                    SubroutineCallTarget::Supplied => false,
                };
                r.push(current);
                if fixed {
                    r.push(String::from_str("supplied"));
                }
            },
            Node::Array(_) => r.push(current),
            _ => r.push(current),
        }
        assert(r.deep_view() =~= variant_names(self.view())) by {
            assert forall|i: int| 0 <= i < r@.len() implies #[trigger] r.deep_view()[i] == r@[i]@ by {}
        }
        r
    }

    /// Selects the variant that the text names. Nodes with a single variant keep it.
    pub fn set_variant(&mut self, s: &str) -> (r: Result<(), VariantParseError>)
        ensures
            r is Err ==> final(self).view() == old(self).view(),
            forall|w: NodeView|
                #[trigger] variant_read(old(self).view(), s@, w) ==> r is Ok && final(self).view()
                    == w,
            r is Ok ==> node_class_name(final(self).view()) == node_class_name(old(self).view()),
    {
        match self {
            Node::Print(p) => p.set_variant(s),
            Node::Start(n) => n.set_variant(s),
            Node::End(e) => e.set_variant(s),
            Node::Array(a) => a.set_variant(s),
            Node::Subroutine(c) => c.set_variant(s),
            _ => Ok(()),
        }
    }

    /// How many branches the node has.
    pub fn branches(&self) -> (r: u32)
        ensures
            r == (if self.view() is If {
                2u32
            } else {
                1u32
            }),
    {
        match self {
            Node::If(_) => 2,
            _ => 1,
        }
    }

    pub fn input_classes(&self) -> (r: Vec<String>)
        ensures
            r.deep_view() == input_names(self.view()),
    {
        proof {
            reveal_strlit("any");
        }
        match self {
            Node::If(_) => one_name("bool"),
            Node::Print(p) => repeated("any", p.amount as usize),
            Node::End(e) => copy_strings(&e.0),
            Node::Array(a) => repeated("any", a.0),
            Node::Bool(_) => one_name("any"),
            Node::Number(_) => one_name("any"),
            Node::Text(_) => one_name("any"),
            Node::VariableGet(_) => one_name("string"),
            Node::VariableSet(_) => two_names("string", "any"),
            Node::Subroutine(c) => match &c.0 {
                SubroutineCallTarget::Supplied => two_names(
                    "subroutine",
                    "from_supplied_subroutine",
                ),
                SubroutineCallTarget::Fixed(sub) => tagged_name("subroutine_input@", &sub.input),
            },
            _ => {
                let r: Vec<String> = Vec::new();
                assert(r.deep_view() =~= Seq::<Seq<char>>::empty());
                r
            },
        }
    }

    pub fn output_classes(&self) -> (r: Vec<String>)
        ensures
            r.deep_view() == output_names(self.view()),
    {
        match self {
            Node::Start(s) => copy_strings(&s.outputs),
            Node::Array(_) => one_name("array"),
            Node::Bool(_) => one_name("bool"),
            Node::Number(_) => one_name("number"),
            Node::Text(_) => one_name("string"),
            Node::VariableGet(_) => one_name("any"),
            Node::Subroutine(c) => match &c.0 {
                SubroutineCallTarget::Supplied => one_name("from_supplied_subroutine"),
                SubroutineCallTarget::Fixed(sub) => tagged_name("subroutine_output@", &sub.output),
            },
            _ => {
                let r: Vec<String> = Vec::new();
                assert(r.deep_view() =~= Seq::<Seq<char>>::empty());
                r
            },
        }
    }

    /// The node's input sockets, each with the class it expects.
    pub fn inputs(&self) -> (r: Vec<InputSocket>)
        ensures
            r@.len() == input_names(self.view()).len(),
            forall|i: int|
                0 <= i < r@.len() ==> (#[trigger] r@[i]).class.name@ == input_names(self.view())[i]
                    && r@[i].class.parser == parser_for(input_names(self.view())[i]),
    {
        let names = self.input_classes();
        input_sockets(&names)
    }

    /// The node's output sockets, each with the class it produces.
    pub fn outputs(&self) -> (r: Vec<OutputSocket>)
        ensures
            r@.len() == output_names(self.view()).len(),
            forall|i: int|
                0 <= i < r@.len() ==> (#[trigger] r@[i]).class.name@ == output_names(self.view())[i]
                    && r@[i].class.parser == parser_for(output_names(self.view())[i]),
    {
        let names = self.output_classes();
        output_sockets(&names)
    }
}

/// Information about a node stored in a serialized program: its class, the index of
/// the prototype in the class's palette, and its variant.
#[derive(Debug, Clone)]
pub struct NodeInfo {
    pub class: ModulePath,
    pub idx: usize,
    pub variant: String,
}

/// An entry list holds an entry for `k`.
pub open spec fn seq_has(s: Seq<(NodeId, Node)>, k: NodeId) -> bool {
    exists|i: int| 0 <= i < s.len() && (#[trigger] s[i]).0 == k
}

/// Where the entry for `k` stands.
pub open spec fn seq_index_of(s: Seq<(NodeId, Node)>, k: NodeId) -> int {
    choose|i: int| 0 <= i < s.len() && (#[trigger] s[i]).0 == k
}

pub open spec fn distinct_ids(s: Seq<(NodeId, Node)>) -> bool {
    forall|i: int, j: int| 0 <= i < j < s.len() ==> (#[trigger] s[i]).0 != (#[trigger] s[j]).0
}

pub proof fn lemma_unique(s: Seq<(NodeId, Node)>, i: int)
    requires
        distinct_ids(s),
        0 <= i < s.len(),
    ensures
        seq_has(s, s[i].0),
        seq_index_of(s, s[i].0) == i,
{
    let k = s[i].0;
    assert(s[i].0 == k);
    let j = seq_index_of(s, k);
    if j != i {
        if j < i {
            assert(s[j].0 != s[i].0);
        } else {
            assert(s[i].0 != s[j].0);
        }
    }
}

pub proof fn lemma_push(s: Seq<(NodeId, Node)>, e: (NodeId, Node))
    ensures
        forall|k: NodeId| #[trigger] seq_has(s.push(e), k) == (seq_has(s, k) || k == e.0),
        distinct_ids(s) && !seq_has(s, e.0) ==> distinct_ids(s.push(e)),
{
    let t = s.push(e);
    assert forall|k: NodeId| #[trigger] seq_has(t, k) == (seq_has(s, k) || k == e.0) by {
        if seq_has(t, k) {
            let j = choose|j: int| 0 <= j < t.len() && (#[trigger] t[j]).0 == k;
            if j < s.len() {
                assert(s[j] == t[j]);
            }
        }
        if seq_has(s, k) {
            let j = choose|j: int| 0 <= j < s.len() && (#[trigger] s[j]).0 == k;
            assert(t[j] == s[j]);
        }
        if k == e.0 {
            assert(t[s.len() as int] == e);
        }
    }
    if distinct_ids(s) && !seq_has(s, e.0) {
        assert forall|i: int, j: int| 0 <= i < j < t.len() implies (#[trigger] t[i]).0 != (
        #[trigger] t[j]).0 by {
            if j == s.len() {
                assert(t[i] == s[i]);
            } else {
                assert(t[i] == s[i]);
                assert(t[j] == s[j]);
            }
        }
    }
}

pub proof fn lemma_set(s: Seq<(NodeId, Node)>, i: int, e: (NodeId, Node))
    requires
        0 <= i < s.len(),
        s[i].0 == e.0,
        distinct_ids(s),
    ensures
        forall|k: NodeId| #[trigger] seq_has(s.update(i, e), k) == seq_has(s, k),
        distinct_ids(s.update(i, e)),
        forall|j: int| 0 <= j < s.len() ==> (#[trigger] s.update(i, e)[j]).0 == s[j].0,
{
    let t = s.update(i, e);
    assert forall|j: int| 0 <= j < s.len() implies (#[trigger] t[j]).0 == s[j].0 by {}
    assert forall|k: NodeId| #[trigger] seq_has(t, k) == seq_has(s, k) by {
        if seq_has(t, k) {
            let j = choose|j: int| 0 <= j < t.len() && (#[trigger] t[j]).0 == k;
            assert(s[j].0 == k);
        }
        if seq_has(s, k) {
            let j = choose|j: int| 0 <= j < s.len() && (#[trigger] s[j]).0 == k;
            assert(t[j].0 == k);
        }
    }
    assert forall|a: int, b: int| 0 <= a < b < t.len() implies (#[trigger] t[a]).0 != (
    #[trigger] t[b]).0 by {
        assert(t[a].0 == s[a].0);
        assert(t[b].0 == s[b].0);
    }
}

pub proof fn lemma_remove(s: Seq<(NodeId, Node)>, i: int)
    requires
        0 <= i < s.len(),
        distinct_ids(s),
    ensures
        forall|k: NodeId| #[trigger] seq_has(s.remove(i), k) == (seq_has(s, k) && k != s[i].0),
        distinct_ids(s.remove(i)),
{
    let t = s.remove(i);
    assert forall|k: NodeId| #[trigger] seq_has(t, k) == (seq_has(s, k) && k != s[i].0) by {
        if seq_has(t, k) {
            let j = choose|j: int| 0 <= j < t.len() && (#[trigger] t[j]).0 == k;
            let j0 = if j < i {
                j
            } else {
                j + 1
            };
            assert(t[j] == s[j0]);
            assert(j0 != i);
            if k == s[i].0 {
                if j0 < i {
                    assert(s[j0].0 != s[i].0);
                } else {
                    assert(s[i].0 != s[j0].0);
                }
            }
        }
        if seq_has(s, k) && k != s[i].0 {
            let j = choose|j: int| 0 <= j < s.len() && (#[trigger] s[j]).0 == k;
            if j < i {
                assert(t[j] == s[j]);
            } else {
                assert(t[j - 1] == s[j]);
            }
        }
    }
    assert forall|a: int, b: int| 0 <= a < b < t.len() implies (#[trigger] t[a]).0 != (
    #[trigger] t[b]).0 by {
        let a0 = if a < i {
            a
        } else {
            a + 1
        };
        let b0 = if b < i {
            b
        } else {
            b + 1
        };
        assert(t[a] == s[a0]);
        assert(t[b] == s[b0]);
    }
}

/// Per-program node container, keyed by node id, with a hint below which every id
/// is taken.
#[derive(Debug)]
pub struct NodeStorage {
    pub nodes: Vec<(NodeId, Node)>,
    pub next_vacant: NodeId,
}

impl NodeStorage {
    pub open spec fn has(&self, id: NodeId) -> bool {
        seq_has(self.nodes@, id)
    }

    /// Where the node of an id stands, if it is stored.
    pub open spec fn index_of(&self, id: NodeId) -> int {
        seq_index_of(self.nodes@, id)
    }

    pub open spec fn wf(&self) -> bool {
        &&& distinct_ids(self.nodes@)
        &&& forall|id: NodeId| id < self.next_vacant ==> #[trigger] seq_has(self.nodes@, id)
    }

    pub fn new() -> (r: NodeStorage)
        ensures
            r.wf(),
            r.nodes@.len() == 0,
    {
        NodeStorage { nodes: Vec::new(), next_vacant: 0 }
    }

    fn find(&self, id: NodeId) -> (r: Option<usize>)
        requires
            distinct_ids(self.nodes@),
        ensures
            match r {
                Some(i) => i < self.nodes@.len() && self.nodes@[i as int].0 == id && self.has(id)
                    && self.index_of(id) == i,
                None => !self.has(id),
            },
    {
        let mut i: usize = 0;
        while i < self.nodes.len()
            invariant
                distinct_ids(self.nodes@),
                i <= self.nodes@.len(),
                forall|j: int| 0 <= j < i ==> (#[trigger] self.nodes@[j]).0 != id,
            decreases self.nodes@.len() - i,
        {
            if self.nodes[i].0 == id {
                proof {
                    lemma_unique(self.nodes@, i as int);
                }
                return Some(i);
            }
            i = i + 1;
        }
        None
    }

    /// The node stored under an id.
    pub fn get_node(&self, node_id: NodeId) -> (r: Option<&Node>)
        requires
            self.wf(),
        ensures
            match r {
                Some(n) => self.has(node_id) && *n == self.nodes@[self.index_of(node_id)].1,
                None => !self.has(node_id),
            },
    {
        match self.find(node_id) {
            Some(i) => Some(&self.nodes[i].1),
            None => None,
        }
    }

    /// Moves `next_vacant` up past the ids that are taken.
    fn settle_vacant(&mut self)
        requires
            distinct_ids(old(self).nodes@),
            forall|id: NodeId| id < old(self).next_vacant ==> #[trigger] seq_has(old(self).nodes@, id),
        ensures
            final(self).wf(),
            final(self).nodes@ == old(self).nodes@,
            final(self).next_vacant == u32::MAX || !final(self).has(final(self).next_vacant),
    {
        loop
            invariant
                distinct_ids(self.nodes@),
                forall|id: NodeId| id < self.next_vacant ==> #[trigger] seq_has(self.nodes@, id),
                self.nodes@ == old(self).nodes@,
            ensures
                distinct_ids(self.nodes@),
                forall|id: NodeId| id < self.next_vacant ==> #[trigger] seq_has(self.nodes@, id),
                self.nodes@ == old(self).nodes@,
                self.next_vacant == u32::MAX || !self.has(self.next_vacant),
            decreases u32::MAX - self.next_vacant,
        {
            if self.next_vacant == u32::MAX {
                break;
            }
            let f = self.find(self.next_vacant);
            if f.is_none() {
                break;
            }
            assert(self.has(self.next_vacant));
            let ghost nv = self.next_vacant;
            self.next_vacant = self.next_vacant + 1;
            assert forall|id: NodeId| id < self.next_vacant implies #[trigger] seq_has(
                self.nodes@,
                id,
            ) by {
                if id < nv {
                } else {
                    assert(id == nv);
                }
            }
        }
    }

    /// Stores a node under the smallest unused id and returns that id; `None`, with
    /// nothing stored, when every id is taken.
    pub fn insert_node(&mut self, node: Node) -> (r: Option<NodeId>)
        requires
            old(self).wf(),
        ensures
            final(self).wf(),
            r is Some ==> final(self).next_vacant == u32::MAX || !final(self).has(
                final(self).next_vacant,
            ),
            match r {
                Some(id) => {
                    &&& !old(self).has(id)
                    &&& forall|k: NodeId| k < id ==> old(self).has(k)
                    &&& final(self).nodes@ == old(self).nodes@.push((id, node))
                },
                None => final(self).nodes@ == old(self).nodes@ && forall|k: NodeId| old(self).has(k),
            },
    {
        let mut id = self.next_vacant;
        loop
            invariant
                self.wf(),
                self.nodes@ == old(self).nodes@,
                self.next_vacant == old(self).next_vacant,
                self.next_vacant <= id,
                forall|k: NodeId| k < id ==> self.has(k),
            ensures
                self.wf(),
                self.nodes@ == old(self).nodes@,
                self.next_vacant == old(self).next_vacant,
                forall|k: NodeId| k < id ==> self.has(k),
                !self.has(id),
            decreases u32::MAX - id,
        {
            let f = self.find(id);
            if f.is_none() {
                break;
            }
            if id == u32::MAX {
                assert forall|k: NodeId| self.has(k) by {
                    if k >= id {
                        assert(k == id);
                    }
                }
                return None;
            }
            id = id + 1;
        }
        let ghost before = self.nodes@;
        proof {
            lemma_push(before, (id, node));
        }
        self.nodes.push((id, node));
        assert forall|k: NodeId| k < self.next_vacant implies self.has(k) by {
            assert(seq_has(before, k));
        }
        self.settle_vacant();
        Some(id)
    }

    /// Stores a node under the given id, replacing what was stored there.
    pub fn insert_node_at(&mut self, node_id: NodeId, node: Node)
        requires
            old(self).wf(),
        ensures
            final(self).wf(),
            final(self).has(node_id),
            final(self).nodes@[final(self).index_of(node_id)] == (node_id, node),
            forall|k: NodeId| #[trigger] final(self).has(k) == (old(self).has(k) || k == node_id),
            forall|k: NodeId|
                k != node_id && old(self).has(k) ==> final(self).nodes@[final(self).index_of(k)]
                    == old(self).nodes@[old(self).index_of(k)],
    {
        let ghost before = self.nodes@;
        match self.find(node_id) {
            Some(i) => {
                proof {
                    lemma_set(before, i as int, (node_id, node));
                }
                self.nodes.set(i, (node_id, node));
                proof {
                    assert(self.nodes@ == before.update(i as int, (node_id, node)));
                    assert forall|k: NodeId| k < self.next_vacant implies self.has(k) by {
                        assert(seq_has(before, k));
                    }
                    lemma_unique(self.nodes@, i as int);
                    assert forall|k: NodeId|
                        k != node_id && old(self).has(k) implies self.nodes@[self.index_of(k)]
                        == old(self).nodes@[old(self).index_of(k)] by {
                        let j = old(self).index_of(k);
                        lemma_unique(before, j);
                        lemma_unique(self.nodes@, j);
                    }
                }
            },
            None => {
                proof {
                    lemma_push(before, (node_id, node));
                }
                self.nodes.push((node_id, node));
                proof {
                    assert forall|k: NodeId| k < self.next_vacant implies self.has(k) by {
                        assert(seq_has(before, k));
                    }
                    lemma_unique(self.nodes@, before.len() as int);
                    assert forall|k: NodeId|
                        k != node_id && old(self).has(k) implies self.nodes@[self.index_of(k)]
                        == old(self).nodes@[old(self).index_of(k)] by {
                        let j = old(self).index_of(k);
                        lemma_unique(before, j);
                        assert(self.nodes@[j] == before[j]);
                        lemma_unique(self.nodes@, j);
                    }
                }
            },
        }
        self.settle_vacant();
    }

    /// Removes the node of an id, returning it; the id becomes the smallest-free hint
    /// if it is below the current one.
    pub fn remove_node(&mut self, node_id: NodeId) -> (r: Option<Node>)
        requires
            old(self).wf(),
        ensures
            final(self).wf(),
            !final(self).has(node_id),
            r is Some <==> old(self).has(node_id),
            r matches Some(n) ==> n == old(self).nodes@[old(self).index_of(node_id)].1,
            forall|k: NodeId| k != node_id ==> #[trigger] final(self).has(k) == old(self).has(k),
            forall|k: NodeId|
                k != node_id && old(self).has(k) ==> final(self).nodes@[final(self).index_of(k)]
                    == old(self).nodes@[old(self).index_of(k)],
    {
        match self.find(node_id) {
            Some(i) => {
                proof {
                    lemma_remove(self.nodes@, i as int);
                }
                let ghost before = self.nodes@;
                let (_, n) = self.nodes.remove(i);
                if node_id < self.next_vacant {
                    self.next_vacant = node_id;
                }
                proof {
                    assert forall|k: NodeId|
                        k != node_id && old(self).has(k) implies self.nodes@[self.index_of(k)]
                        == old(self).nodes@[old(self).index_of(k)] by {
                        let j = old(self).index_of(k);
                        lemma_unique(before, j);
                        let j2 = if j < i { j } else { j - 1 };
                        assert(j != i);
                        assert(self.nodes@[j2] == before[j]);
                        lemma_unique(self.nodes@, j2);
                    }
                }
                assert forall|k: NodeId| k < self.next_vacant implies self.has(k) by {
                    assert(old(self).has(k));
                    assert(k != node_id);
                    assert(seq_has(before, k));
                }
                Some(n)
            },
            None => None,
        }
    }
}

/// Looking a node up twice in storage that did not change between gives the same node.
pub proof fn lemma_lookup_stable(a: NodeStorage, b: NodeStorage, id: NodeId)
    requires
        a.nodes@ == b.nodes@,
    ensures
        a.has(id) == b.has(id),
        a.has(id) ==> a.nodes@[a.index_of(id)] == b.nodes@[b.index_of(id)],
{
}

} // verus!
