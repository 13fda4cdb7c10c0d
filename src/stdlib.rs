//! The standard library: built-in nodes, their variant grammars, and their classes.
use vstd::prelude::*;
use crate::class::{Class, ClassRef, TextParser};
use crate::module::{full_key, path_valid, ModulePath};
use crate::node::{AbsoluteNodeId, Node, NodeView};
use crate::object::{lemma_subroutine_round_trip, parsed_subroutine, subroutine_text, Subroutine};
use crate::text::{
    free_of, lemma_decimal_text_digits, lemma_digits_free, lemma_first_index_prepend,
    lemma_split_append, lemma_split_free, all_digits, chars_of, decimal_text, digits_value, first_index,
    first_index_of, has_prefix, lemma_first_index_bounds, parse_decimal, push_char,
    push_decimal, push_str, split_chars, split_on, string_of_range, text_is,
};

verus! {

/// The RON text that `ron::to_string` gives for a list of strings.
pub uninterp spec fn ron_list_text(names: Seq<Seq<char>>) -> Seq<char>;

/// Relies on `ron::to_string`: the RON text of a list of strings. It fails only on a
/// writer error or past its recursion limit, which a flat list of strings never meets.
#[verifier::external_body]
pub(crate) fn ron_list(names: &Vec<String>) -> (r: String)
    ensures
        r@ == ron_list_text(names.deep_view()),
{
    ron::to_string(names).unwrap()
}

/// Relies on `ron::from_str`: reads a list of strings; text that `ron::to_string` wrote
/// for a list reads back as that list, and `[]` reads as the empty list.
#[verifier::external_body]
fn ron_parse_list(s: &str) -> (r: Option<Vec<String>>)
    ensures
        forall|v: Seq<Seq<char>>|
            #[trigger] ron_list_text(v) == s@ ==> r is Some && r->Some_0.deep_view() == v,
        s@ == empty_list_text() ==> r is Some && r->Some_0@.len() == 0,
{
    ron::from_str::<Vec<String>>(s).ok()
}

/// The parser that a standard class of this name carries.
pub open spec fn parser_for(name: Seq<char>) -> Option<TextParser> {
    if name == "any"@ {
        Some(TextParser::Any)
    } else if name == "string"@ {
        Some(TextParser::Text)
    } else if name == "bool"@ {
        Some(TextParser::Bool)
    } else if name == "number"@ {
        Some(TextParser::Number)
    } else if name == "array"@ {
        Some(TextParser::Array)
    } else if name == "subroutine"@ {
        Some(TextParser::Subroutine)
    } else {
        None
    }
}

/// A reference to the class of the given name, with the parser of the standard class
/// of that name.
pub fn class_ref_named(name: &String) -> (r: ClassRef)
    ensures
        r.name@ == name@,
        r.parser == parser_for(name@),
{
    let parser = if text_is(name, "any") {
        Some(TextParser::Any)
    } else if text_is(name, "string") {
        Some(TextParser::Text)
    } else if text_is(name, "bool") {
        Some(TextParser::Bool)
    } else if text_is(name, "number") {
        Some(TextParser::Number)
    } else if text_is(name, "array") {
        Some(TextParser::Array)
    } else if text_is(name, "subroutine") {
        Some(TextParser::Subroutine)
    } else {
        None
    };
    ClassRef { name: name.clone(), parser }
}

pub fn class_ref_of(name: &str) -> (r: ClassRef)
    ensures
        r.name@ == name@,
        r.parser == parser_for(name@),
{
    class_ref_named(&String::from_str(name))
}

/// Does nothing.
#[derive(Debug, Clone, Copy)]
pub struct NopNode;

/// Chooses branch 1 when its input is truthy, branch 0 otherwise.
#[derive(Debug, Clone, Copy)]
pub struct IfNode;

/// Prints its inputs joined by spaces, with a newline if `ln`.
#[derive(Debug, Clone, Copy)]
pub struct Print {
    pub ln: bool,
    pub amount: u32,
}

/// Start of a program or subroutine: its entry name and the classes of its outputs.
#[derive(Debug)]
pub struct StartNode {
    pub outputs: Vec<String>,
    pub name: String,
}

/// End of a program or subroutine, with the classes of its inputs.
#[derive(Debug)]
pub struct EndNode(pub Vec<String>);

/// Builds an array of its inputs.
#[derive(Debug, Clone, Copy)]
pub struct ArrayConstructor(pub usize);

/// Reads its input as a boolean.
#[derive(Debug, Clone, Copy)]
pub struct BoolNode;

/// Reads its input as a number.
#[derive(Debug, Clone, Copy)]
pub struct NumberNode;

/// Renders its input as a string.
#[derive(Debug, Clone, Copy)]
pub struct StringNode;

/// Outputs the variable named by its input, if it is set.
#[derive(Debug, Clone, Copy)]
pub struct VariableGet;

/// Sets the variable named by its first input to its second input.
#[derive(Debug, Clone, Copy)]
pub struct VariableSet;

/// Where a subroutine call goes: a subroutine object on the first input, or a fixed one.
#[derive(Debug)]
pub enum SubroutineCallTarget {
    Supplied,
    Fixed(Subroutine),
}

/// Calls a subroutine.
#[derive(Debug)]
pub struct SubroutineCall(pub SubroutineCallTarget);

pub open spec fn print_kind_text(ln: bool) -> Seq<char> {
    if ln {
        "println"@
    } else {
        "print"@
    }
}

/// The variant text of each standard node.
pub open spec fn variant_text(v: NodeView) -> Seq<char> {
    match v {
        NodeView::Nop => "nop"@,
        NodeView::If => "if"@,
        NodeView::Print(ln, n) => print_kind_text(ln) + seq![':'] + decimal_text(n),
        NodeView::Start(name, outs) => "start"@ + seq!['#'] + name + seq!['#'] + ron_list_text(
            outs,
        ),
        NodeView::End(ins) => "end"@ + ron_list_text(ins),
        NodeView::Array(n) => "array-"@ + decimal_text(n),
        NodeView::Bool => "from-object"@,
        NodeView::Number => "from-object"@,
        NodeView::Text => "from-object"@,
        NodeView::VariableGet => "get"@,
        NodeView::VariableSet => "set"@,
        NodeView::Supplied => "supplied"@,
        NodeView::Fixed(a, b) => subroutine_text(a, b),
    }
}

/// `w` is what a print variant text reads as.
pub open spec fn print_read(s: Seq<char>, w: NodeView) -> bool {
    let p = split_on(s, ':');
    if s == "print"@ {
        w == NodeView::Print(false, 1)
    } else if s == "println"@ {
        w == NodeView::Print(true, 1)
    } else {
        &&& p.len() == 2
        &&& (p[0] == "print"@ || p[0] == "println"@)
        &&& p[1].len() > 0 && all_digits(p[1]) && digits_value(p[1]) <= u32::MAX
        &&& w == NodeView::Print(p[0] == "println"@, digits_value(p[1]))
    }
}

/// The part of a start variant text after its first `#`.
pub open spec fn start_rest(s: Seq<char>) -> Seq<char> {
    s.subrange(first_index_of(s, '#') + 1, s.len() as int)
}

/// The name in a start variant text: between the first two `#`.
pub open spec fn start_name(s: Seq<char>) -> Seq<char> {
    start_rest(s).subrange(0, first_index_of(start_rest(s), '#'))
}

/// The RON list of output classes in a start variant text: after the second `#`.
pub open spec fn start_list(s: Seq<char>) -> Seq<char> {
    let rest = start_rest(s);
    rest.subrange(first_index_of(rest, '#') + 1, rest.len() as int)
}

pub open spec fn start_shaped(s: Seq<char>) -> bool {
    first_index_of(s, '#') >= 0 && first_index_of(start_rest(s), '#') >= 0
}

/// `w` is what a start variant text reads as: the name between the first two `#`, and
/// the RON list of output classes after the second.
pub open spec fn start_read(s: Seq<char>, w: NodeView) -> bool {
    &&& start_shaped(s)
    &&& w matches NodeView::Start(name, outs) && name == start_name(s) && (ron_list_text(outs)
        == start_list(s) || (start_list(s) == empty_list_text() && outs.len() == 0))
}

/// The RON text of an empty list.
pub open spec fn empty_list_text() -> Seq<char> {
    seq!['[', ']']
}

/// `w` is what an end variant text reads as: `end`, then the RON list of input classes.
pub open spec fn end_read(s: Seq<char>, w: NodeView) -> bool {
    &&& s.len() >= 3
    &&& s.subrange(0, 3) == "end"@
    &&& w matches NodeView::End(ins) && (ron_list_text(ins) == s.subrange(3, s.len() as int) || (
    s.subrange(3, s.len() as int) == empty_list_text() && ins.len() == 0))
}

/// `w` is what an array constructor variant text reads as: `array-` and the arity.
pub open spec fn array_read(s: Seq<char>, w: NodeView) -> bool {
    let d = s.subrange(6, s.len() as int);
    &&& s.len() >= 6
    &&& s.subrange(0, 6) == "array-"@
    &&& d.len() > 0 && all_digits(d) && digits_value(d) <= usize::MAX
    &&& w == NodeView::Array(digits_value(d))
}

/// `w` is what a subroutine call variant text reads as.
pub open spec fn subroutine_read(s: Seq<char>, w: NodeView) -> bool {
    if s == "supplied"@ {
        w == NodeView::Supplied
    } else {
        match parsed_subroutine(s) {
            Ok((a, b)) => w == NodeView::Fixed(a, b),
            Err(_) => false,
        }
    }
}

/// `w` is what the variant text `s` reads as, for a node like `kind`. Nodes with a
/// single variant keep it, whatever the text.
pub open spec fn variant_read(kind: NodeView, s: Seq<char>, w: NodeView) -> bool {
    match kind {
        NodeView::Print(_, _) => print_read(s, w),
        NodeView::Start(_, _) => start_read(s, w),
        NodeView::End(_) => end_read(s, w),
        NodeView::Array(_) => array_read(s, w),
        NodeView::Supplied => subroutine_read(s, w),
        NodeView::Fixed(_, _) => subroutine_read(s, w),
        _ => w == kind,
    }
}

#[derive(Debug, Clone, Copy, PartialEq, Eq, Structural)]
pub enum VariantParseError {
    InvalidVariant,
}

impl Print {
    pub fn set_variant(&mut self, s: &str) -> (r: Result<(), VariantParseError>)
        ensures
            r is Ok ==> print_read(s@, NodeView::Print(final(self).ln, final(self).amount as nat)),
            r is Err ==> *final(self) == *old(self),
            forall|w: NodeView|
                #[trigger] print_read(s@, w) ==> r is Ok && w == NodeView::Print(
                    final(self).ln,
                    final(self).amount as nat,
                ),
    {
        if text_is(&String::from_str(s), "print") {
            self.ln = false;
            self.amount = 1;
            return Ok(());
        }
        if text_is(&String::from_str(s), "println") {
            self.ln = true;
            self.amount = 1;
            return Ok(());
        }
        let v = chars_of(s);
        assert(v@.subrange(0, v@.len() as int) =~= s@);
        let parts = split_chars(&v, 0, v.len(), ':');
        if parts.len() != 2 {
            return Err(VariantParseError::InvalidVariant);
        }
        assert(parts.deep_view()[0] == parts@[0]@);
        assert(parts.deep_view()[1] == parts@[1]@);
        let ln = if text_is(&parts[0], "println") {
            true
        } else if text_is(&parts[0], "print") {
            false
        } else {
            return Err(VariantParseError::InvalidVariant);
        };
        let d = chars_of(parts[1].as_str());
        assert(d@.subrange(0, d@.len() as int) =~= d@);
        match parse_decimal(&d, 0, d.len(), 0xFFFF_FFFF) {
            None => Err(VariantParseError::InvalidVariant),
            Some(n) => {
                self.ln = ln;
                self.amount = n as u32;
                Ok(())
            },
        }
    }
}

impl StartNode {
    pub open spec fn node_view(&self) -> NodeView {
        NodeView::Start(self.name@, self.outputs.deep_view())
    }

    pub fn set_variant(&mut self, s: &str) -> (r: Result<(), VariantParseError>)
        ensures
            r is Ok ==> start_shaped(s@) && final(self).name@ == start_name(s@),
            r is Err ==> final(self).node_view() == old(self).node_view(),
            forall|w: NodeView|
                #[trigger] start_read(s@, w) ==> r is Ok && w == final(self).node_view(),
    {
        let v = chars_of(s);
        assert(v@.subrange(0, v@.len() as int) =~= s@);
        proof {
            lemma_first_index_bounds(s@, '#');
        }
        let k1 = match first_index(&v, 0, v.len(), '#') {
            None => return Err(VariantParseError::InvalidVariant),
            Some(k) => k,
        };
        let ghost rest = s@.subrange(k1 + 1, s@.len() as int);
        assert(v@.subrange(k1 + 1, v@.len() as int) == rest);
        proof {
            lemma_first_index_bounds(rest, '#');
        }
        let k2 = match first_index(&v, k1 + 1, v.len(), '#') {
            None => return Err(VariantParseError::InvalidVariant),
            Some(k) => k,
        };
        let name = string_of_range(&v, k1 + 1, k1 + 1 + k2);
        assert(name@ =~= rest.subrange(0, k2 as int));
        let list = string_of_range(&v, k1 + 1 + k2 + 1, v.len());
        assert(list@ =~= rest.subrange(k2 + 1, rest.len() as int));
        match ron_parse_list(list.as_str()) {
            None => Err(VariantParseError::InvalidVariant),
            Some(outs) => {
                let ghost ov = outs.deep_view();
                proof {
                    if list@ == empty_list_text() {
                        assert(outs.deep_view() =~= Seq::<Seq<char>>::empty());
                    }
                }
                self.name = name;
                self.outputs = outs;
                proof {
                    assert forall|w: NodeView| #[trigger] start_read(s@, w) implies w
                        == self.node_view() by {
                        if let NodeView::Start(nm, o) = w {
                            if ron_list_text(o) == start_list(s@) {
                                assert(o == ov);
                            } else {
                                assert(o =~= ov);
                            }
                        }
                    }
                }
                Ok(())
            },
        }
    }
}

impl EndNode {
    pub open spec fn node_view(&self) -> NodeView {
        NodeView::End(self.0.deep_view())
    }

    pub fn set_variant(&mut self, s: &str) -> (r: Result<(), VariantParseError>)
        ensures
            r is Ok ==> s@.len() >= 3 && s@.subrange(0, 3) == "end"@,
            r is Err ==> final(self).node_view() == old(self).node_view(),
            forall|w: NodeView| #[trigger] end_read(s@, w) ==> r is Ok && w == final(self).node_view(),
    {
        let v = chars_of(s);
        if !has_prefix(&v, 0, v.len(), "end") {
            return Err(VariantParseError::InvalidVariant);
        }
        proof {
            reveal_strlit("end");
        }
        let list = string_of_range(&v, 3, v.len());
        match ron_parse_list(list.as_str()) {
            None => Err(VariantParseError::InvalidVariant),
            Some(ins) => {
                let ghost iv = ins.deep_view();
                proof {
                    if list@ == empty_list_text() {
                        assert(ins.deep_view() =~= Seq::<Seq<char>>::empty());
                    }
                }
                self.0 = ins;
                proof {
                    assert forall|w: NodeView| #[trigger] end_read(s@, w) implies w
                        == self.node_view() by {
                        assert(list@ == s@.subrange(3, s@.len() as int));
                        if let NodeView::End(o) = w {
                            if ron_list_text(o) == list@ {
                                assert(o == iv);
                            } else {
                                assert(o =~= iv);
                            }
                        }
                    }
                }
                Ok(())
            },
        }
    }

    pub fn current_variant(&self) -> (r: String)
        ensures
            r@ == variant_text(self.node_view()),
    {
        let mut r = String::from_str("end");
        let list = ron_list(&self.0);
        push_str(&mut r, &list);
        r
    }
}

impl StartNode {
    pub fn current_variant(&self) -> (r: String)
        ensures
            r@ == variant_text(self.node_view()),
    {
        let mut r = String::from_str("start");
        push_char(&mut r, '#');
        push_str(&mut r, &self.name);
        push_char(&mut r, '#');
        let list = ron_list(&self.outputs);
        push_str(&mut r, &list);
        r
    }
}

impl Print {
    pub fn current_variant(&self) -> (r: String)
        ensures
            r@ == variant_text(NodeView::Print(self.ln, self.amount as nat)),
    {
        let mut r = if self.ln {
            String::from_str("println")
        } else {
            String::from_str("print")
        };
        push_char(&mut r, ':');
        push_decimal(&mut r, self.amount as u64);
        r
    }
}

impl ArrayConstructor {
    pub fn set_variant(&mut self, s: &str) -> (r: Result<(), VariantParseError>)
        ensures
            r is Ok ==> array_read(s@, NodeView::Array(final(self).0 as nat)),
            r is Err ==> *final(self) == *old(self),
            forall|w: NodeView|
                #[trigger] array_read(s@, w) ==> r is Ok && w == NodeView::Array(final(self).0 as nat),
    {
        let v = chars_of(s);
        proof {
            reveal_strlit("array-");
        }
        if !has_prefix(&v, 0, v.len(), "array-") {
            return Err(VariantParseError::InvalidVariant);
        }
        match parse_decimal(&v, 6, v.len(), usize::MAX as u64) {
            None => Err(VariantParseError::InvalidVariant),
            Some(n) => {
                self.0 = n as usize;
                Ok(())
            },
        }
    }

    pub fn current_variant(&self) -> (r: String)
        ensures
            r@ == variant_text(NodeView::Array(self.0 as nat)),
    {
        let mut r = String::from_str("array-");
        push_decimal(&mut r, self.0 as u64);
        r
    }
}

impl SubroutineCall {
    pub open spec fn node_view(&self) -> NodeView {
        match self.0 {
            SubroutineCallTarget::Supplied => NodeView::Supplied,
            SubroutineCallTarget::Fixed(sub) => NodeView::Fixed(
                sub.input_view(),
                sub.output_view(),
            ),
        }
    }

    pub fn set_variant(&mut self, s: &str) -> (r: Result<(), VariantParseError>)
        ensures
            r is Ok ==> subroutine_read(s@, final(self).node_view()),
            r is Err ==> final(self).node_view() == old(self).node_view(),
            forall|w: NodeView|
                #[trigger] subroutine_read(s@, w) ==> r is Ok && w == final(self).node_view(),
    {
        if text_is(&String::from_str(s), "supplied") {
            self.0 = SubroutineCallTarget::Supplied;
            return Ok(());
        }
        match Subroutine::parse(s) {
            Ok(sub) => {
                self.0 = SubroutineCallTarget::Fixed(sub);
                Ok(())
            },
            Err(_) => Err(VariantParseError::InvalidVariant),
        }
    }

    pub fn current_variant(&self) -> (r: String)
        ensures
            r@ == variant_text(self.node_view()),
    {
        match &self.0 {
            SubroutineCallTarget::Supplied => String::from_str("supplied"),
            SubroutineCallTarget::Fixed(sub) => {
                let mut r = String::new();
                sub.write_text(&mut r);
                assert(r@ =~= variant_text(self.node_view()));
                r
            },
        }
    }
}

/// A standard class with one prototype node.
fn std_class(name: &str, node: Node, parser: Option<TextParser>) -> (r: Class)
    ensures
        r.name@ == name@,
        r.nodes@ == seq![node],
        r.obj_from_str == parser,
{
    let mut nodes: Vec<Node> = Vec::new();
    nodes.push(node);
    assert(nodes@ =~= seq![node]);
    Class { name: String::from_str(name), nodes, obj_from_str: parser }
}

pub fn any_class() -> (r: Class)
    ensures
        r.name@ == "any"@,
        r.obj_from_str == Some(TextParser::Any),
        r.nodes@.len() == 1 && r.nodes@[0].view() == NodeView::Nop,
{
    std_class("any", Node::Nop(NopNode), Some(TextParser::Any))
}

pub fn array_class() -> (r: Class)
    ensures
        r.name@ == "array"@,
        r.obj_from_str == Some(TextParser::Array),
        r.nodes@.len() == 1 && r.nodes@[0].view() == NodeView::Array(1),
{
    std_class("array", Node::Array(ArrayConstructor(1)), Some(TextParser::Array))
}

pub fn bool_class() -> (r: Class)
    ensures
        r.name@ == "bool"@,
        r.obj_from_str == Some(TextParser::Bool),
        r.nodes@.len() == 1 && r.nodes@[0].view() == NodeView::Bool,
{
    std_class("bool", Node::Bool(BoolNode), Some(TextParser::Bool))
}

pub fn number_class() -> (r: Class)
    ensures
        r.name@ == "number"@,
        r.obj_from_str == Some(TextParser::Number),
        r.nodes@.len() == 1 && r.nodes@[0].view() == NodeView::Number,
{
    std_class("number", Node::Number(NumberNode), Some(TextParser::Number))
}

pub fn string_class() -> (r: Class)
    ensures
        r.name@ == "string"@,
        r.obj_from_str == Some(TextParser::Text),
        r.nodes@.len() == 1 && r.nodes@[0].view() == NodeView::Text,
{
    std_class("string", Node::Text(StringNode), Some(TextParser::Text))
}

pub fn start_node_class() -> (r: Class)
    ensures
        r.name@ == "start"@,
        r.obj_from_str is None,
        r.nodes@.len() == 1 && r.nodes@[0].view() == NodeView::Start(
            "default"@,
            Seq::<Seq<char>>::empty(),
        ),
{
    let outputs: Vec<String> = Vec::new();
    assert(outputs.deep_view() =~= Seq::<Seq<char>>::empty());
    std_class(
        "start",
        Node::Start(StartNode { outputs, name: String::from_str("default") }),
        None,
    )
}

pub fn end_node_class() -> (r: Class)
    ensures
        r.name@ == "end"@,
        r.obj_from_str is None,
        r.nodes@.len() == 1 && r.nodes@[0].view() == NodeView::End(Seq::<Seq<char>>::empty()),
{
    let inputs: Vec<String> = Vec::new();
    assert(inputs.deep_view() =~= Seq::<Seq<char>>::empty());
    std_class("end", Node::End(EndNode(inputs)), None)
}

pub fn if_node_class() -> (r: Class)
    ensures
        r.name@ == "if"@,
        r.obj_from_str is None,
        r.nodes@.len() == 1 && r.nodes@[0].view() == NodeView::If,
{
    std_class("if", Node::If(IfNode), None)
}

pub fn nop_node_class() -> (r: Class)
    ensures
        r.name@ == "nop"@,
        r.obj_from_str is None,
        r.nodes@.len() == 1 && r.nodes@[0].view() == NodeView::Nop,
{
    std_class("nop", Node::Nop(NopNode), None)
}

pub fn print_class() -> (r: Class)
    ensures
        r.name@ == "print"@,
        r.obj_from_str is None,
        r.nodes@.len() == 1 && r.nodes@[0].view() == NodeView::Print(true, 1),
{
    std_class("print", Node::Print(Print { ln: true, amount: 1 }), None)
}

pub fn subroutine_class() -> (r: Class)
    ensures
        r.name@ == "subroutine"@,
        r.obj_from_str == Some(TextParser::Subroutine),
        r.nodes@.len() == 1 && r.nodes@[0].view() == NodeView::Supplied,
{
    std_class(
        "subroutine",
        Node::Subroutine(SubroutineCall(SubroutineCallTarget::Supplied)),
        Some(TextParser::Subroutine),
    )
}

pub fn variable_get_class() -> (r: Class)
    ensures
        r.name@ == "variable_get"@,
        r.obj_from_str is None,
        r.nodes@.len() == 1 && r.nodes@[0].view() == NodeView::VariableGet,
{
    std_class("variable_get", Node::VariableGet(VariableGet), None)
}

pub fn variable_set_class() -> (r: Class)
    ensures
        r.name@ == "variable_set"@,
        r.obj_from_str is None,
        r.nodes@.len() == 1 && r.nodes@[0].view() == NodeView::VariableSet,
{
    std_class("variable_set", Node::VariableSet(VariableSet), None)
}

/// The class of a socket that takes its inputs from the outputs of node `id`.
pub fn subroutine_input_class(id: &AbsoluteNodeId) -> (r: Class)
    ensures
        r.name@ == "subroutine_input@"@ + id.text(),
        r.nodes@.len() == 0,
        r.obj_from_str is None,
{
    let mut name = String::from_str("subroutine_input@");
    id.write_text(&mut name);
    Class { name, nodes: Vec::new(), obj_from_str: None }
}

/// The class of a socket that gives as outputs the inputs of node `id`.
pub fn subroutine_output_class(id: &AbsoluteNodeId) -> (r: Class)
    ensures
        r.name@ == "subroutine_output@"@ + id.text(),
        r.nodes@.len() == 0,
        r.obj_from_str is None,
{
    let mut name = String::from_str("subroutine_output@");
    id.write_text(&mut name);
    Class { name, nodes: Vec::new(), obj_from_str: None }
}

/// The class of the sockets of a `supplied` subroutine call, whose signature is not
/// known when the graph is built.
pub fn supplied_subroutine_io_class() -> (r: Class)
    ensures
        r.name@ == "from_supplied_subroutine"@,
        r.nodes@.len() == 0,
        r.obj_from_str is None,
{
    Class { name: String::from_str("from_supplied_subroutine"), nodes: Vec::new(), obj_from_str: None }
}

/// A source of classes to place in the module tree.
pub trait Plugin {
    /// The full keys of the classes the plugin hands out, in order.
    spec fn class_keys(&self) -> Seq<Seq<Seq<char>>>;

    /// The classes the plugin hands out, in order: name, prototype views, parser.
    spec fn class_views(&self) -> Seq<(Seq<char>, Seq<NodeView>, Option<TextParser>)>;

    fn classes(&self) -> (r: Vec<(ModulePath, Class)>)
        ensures
            r@.len() == self.class_keys().len(),
            forall|i: int|
                0 <= i < r@.len() ==> full_key((#[trigger] r@[i]).0) == self.class_keys()[i],
            forall|i: int|
                0 <= i < r@.len() ==> (#[trigger] r@[i]).1.name@ == full_key(r@[i].0).last()
                    && r@[i].1.nodes@.len() > 0,
            r@.len() == self.class_views().len(),
            forall|i: int|
                0 <= i < r@.len() ==> (#[trigger] r@[i]).1.name@ == self.class_views()[i].0
                    && r@[i].1.nodes@.map_values(|n: Node| n.view()) == self.class_views()[i].1
                    && r@[i].1.obj_from_str == self.class_views()[i].2;
}

/// The standard library's classes, each under `std.<name>`.
pub struct StdPlugin;

impl StdPlugin {
    pub open spec fn names() -> Seq<Seq<char>> {
        seq![
            "any"@,
            "array"@,
            "bool"@,
            "start"@,
            "end"@,
            "if"@,
            "nop"@,
            "number"@,
            "print"@,
            "string"@,
            "subroutine"@,
            "variable_get"@,
            "variable_set"@,
        ]
    }

    /// The prototype of each standard class, in the order of `names`.
    pub open spec fn protos() -> Seq<NodeView> {
        seq![
            NodeView::Nop,
            NodeView::Array(1),
            NodeView::Bool,
            NodeView::Start("default"@, Seq::<Seq<char>>::empty()),
            NodeView::End(Seq::<Seq<char>>::empty()),
            NodeView::If,
            NodeView::Nop,
            NodeView::Number,
            NodeView::Print(true, 1),
            NodeView::Text,
            NodeView::Supplied,
            NodeView::VariableGet,
            NodeView::VariableSet,
        ]
    }

    /// The from-text parser of each standard class, in the order of `names`.
    pub open spec fn parsers() -> Seq<Option<TextParser>> {
        seq![
            Some(TextParser::Any),
            Some(TextParser::Array),
            Some(TextParser::Bool),
            None,
            None,
            None,
            None,
            Some(TextParser::Number),
            None,
            Some(TextParser::Text),
            Some(TextParser::Subroutine),
            None,
            None,
        ]
    }

    pub fn std_classes() -> (r: Vec<(ModulePath, Class)>)
        ensures
            r@.len() == Self::names().len(),
            forall|i: int|
                0 <= i < r@.len() ==> (#[trigger] r@[i]).0.segs() == seq!["std"@] && r@[i].0.leaf()
                    == Self::names()[i] && r@[i].1.name@ == Self::names()[i]
                    && r@[i].1.nodes@.len() == 1 && r@[i].1.nodes@[0].view() == Self::protos()[i]
                    && r@[i].1.obj_from_str == Self::parsers()[i],
    {
        let mut r: Vec<(ModulePath, Class)> = Vec::new();
        push_std(&mut r, any_class());
        push_std(&mut r, array_class());
        push_std(&mut r, bool_class());
        push_std(&mut r, start_node_class());
        push_std(&mut r, end_node_class());
        push_std(&mut r, if_node_class());
        push_std(&mut r, nop_node_class());
        push_std(&mut r, number_class());
        push_std(&mut r, print_class());
        push_std(&mut r, string_class());
        push_std(&mut r, subroutine_class());
        push_std(&mut r, variable_get_class());
        push_std(&mut r, variable_set_class());
        r
    }
}

impl Plugin for StdPlugin {
    open spec fn class_keys(&self) -> Seq<Seq<Seq<char>>> {
        Self::names().map_values(|n: Seq<char>| seq!["std"@, n])
    }

    open spec fn class_views(&self) -> Seq<(Seq<char>, Seq<NodeView>, Option<TextParser>)> {
        Seq::new(13, |i: int| (Self::names()[i], seq![Self::protos()[i]], Self::parsers()[i]))
    }

    fn classes(&self) -> (r: Vec<(ModulePath, Class)>) {
        let r = Self::std_classes();
        assert forall|i: int| 0 <= i < r@.len() implies full_key((#[trigger] r@[i]).0)
            == self.class_keys()[i] by {
            assert(full_key(r@[i].0) =~= seq!["std"@, Self::names()[i]]);
        }
        assert forall|i: int| 0 <= i < r@.len() implies (#[trigger] r@[i]).1.name@ == full_key(
            r@[i].0,
        ).last() && r@[i].1.nodes@.len() > 0 by {
            assert(full_key(r@[i].0) =~= seq!["std"@, Self::names()[i]]);
        }
        assert forall|i: int| 0 <= i < r@.len() implies (#[trigger] r@[i]).1.name@
            == self.class_views()[i].0 && r@[i].1.nodes@.map_values(|n: Node| n.view())
            == self.class_views()[i].1 && r@[i].1.obj_from_str == self.class_views()[i].2 by {
            assert(r@[i].1.nodes@.map_values(|n: Node| n.view()) =~= seq![Self::protos()[i]]);
        }
        r
    }
}

/// Adds a class under `std.<its name>`.
fn push_std(r: &mut Vec<(ModulePath, Class)>, class: Class)
    ensures
        final(r)@.len() == old(r)@.len() + 1,
        forall|i: int| 0 <= i < old(r)@.len() ==> #[trigger] final(r)@[i] == old(r)@[i],
        final(r)@.last().0.segs() == seq!["std"@],
        final(r)@.last().0.leaf() == class.name@,
        final(r)@.last().1 == class,
{
    let mut segs: Vec<String> = Vec::new();
    segs.push(String::from_str("std"));
    assert(segs.deep_view() =~= seq!["std"@]);
    let path = ModulePath(segs, class.name.clone());
    r.push((path, class));
}

/// A node view whose variant text reads back as itself.
pub open spec fn variant_valid(v: NodeView) -> bool {
    match v {
        NodeView::Print(_, n) => n <= u32::MAX,
        NodeView::Start(name, _) => free_of(name, '#'),
        NodeView::Array(n) => n <= usize::MAX,
        NodeView::Fixed(a, b) => {
            &&& path_valid(a.0, a.1)
            &&& path_valid(b.0, b.1)
            &&& a.2 <= u32::MAX
            &&& b.2 <= u32::MAX
            &&& free_of(b.1, ':')
            &&& forall|i: int| 0 <= i < b.0.len() ==> free_of(#[trigger] b.0[i], ':')
        },
        _ => true,
    }
}

/// Reading a standard node's variant text, for a node of the same kind, gives the same
/// node back; with the contract of `Node::set_variant`, setting a node's current variant
/// leaves it as it was.
pub proof fn lemma_variant_round_trip(v: NodeView)
    requires
        variant_valid(v),
    ensures
        variant_read(v, variant_text(v), v),
{
    let s = variant_text(v);
    match v {
        NodeView::Print(ln, n) => {
            reveal_strlit("print");
            reveal_strlit("println");
            let k = print_kind_text(ln);
            let d = decimal_text(n);
            lemma_decimal_text_digits(n);
            lemma_digits_free(d, ':');
            assert(free_of(k, ':'));
            lemma_split_free(k, ':');
            lemma_split_append(k, d, ':');
            assert(s == k + seq![':'] + d);
            assert(s[k.len() as int] == ':');
            assert(s != "print"@) by {
                if s.len() == 5 {
                    assert(!ln);
                    assert(s.len() == 5 + 1 + d.len());
                }
            }
            assert(s != "println"@) by {
                if s.len() == 7 {
                    if ln {
                        assert(s.len() == 7 + 1 + d.len());
                    } else {
                        assert(s[5] == ':');
                        assert("println"@[5] == 'l');
                    }
                }
            }
            let p = split_on(s, ':');
            assert(p == seq![k].push(d));
            assert(p[0] == k && p[1] == d);
            assert((p[0] == "println"@) == ln);
        },
        NodeView::Start(name, outs) => {
            reveal_strlit("start");
            let l = ron_list_text(outs);
            assert(free_of("start"@, '#'));
            lemma_first_index_prepend("start"@, name + seq!['#'] + l, '#');
            assert(s =~= "start"@ + seq!['#'] + (name + seq!['#'] + l));
            let rest = start_rest(s);
            assert(rest =~= name + seq!['#'] + l);
            lemma_first_index_prepend(name, l, '#');
            assert(rest.subrange(0, name.len() as int) =~= name);
            assert(rest.subrange(name.len() + 1 as int, rest.len() as int) =~= l);
        },
        NodeView::End(ins) => {
            reveal_strlit("end");
            assert(s.subrange(0, 3) =~= "end"@);
            assert(s.subrange(3, s.len() as int) =~= ron_list_text(ins));
        },
        NodeView::Array(n) => {
            reveal_strlit("array-");
            lemma_decimal_text_digits(n);
            assert(s.subrange(0, 6) =~= "array-"@);
            assert(s.subrange(6, s.len() as int) =~= decimal_text(n));
        },
        NodeView::Fixed(a, b) => {
            reveal_strlit("supplied");
            assert(s[2] == 'b');
            assert("supplied"@[2] == 'p');
            lemma_subroutine_round_trip(a, b);
        },
        _ => {},
    }
}

} // verus!
