use stainless_script::stdlib::Plugin;
use std::cmp::Ordering;
use stainless_script::class::TextParser;
use stainless_script::module::{Module, ModuleError, ModulePath, ModulePathParseError};
use stainless_script::node::{
    AbsoluteNodeId, AbsoluteNodeIdParseError, Node, NodeBranchId, NodeStorage,
};
use stainless_script::object::{AnyType, Object, ObjectError, Subroutine};
use stainless_script::program::{format_from_filename, LoadedProgram, Program, ProgramFormat};
use stainless_script::socket::{Connection, InputSocketId, OutputSocketId, SocketId};
use stainless_script::stdlib::{
    any_class, number_class, print_class, ArrayConstructor, IfNode, NopNode, Print, StdPlugin,
};

#[test]
fn module_path_parse_and_text() {
    let p = ModulePath::parse("a.b.leaf").unwrap();
    assert_eq!(p.0, vec!["a".to_string(), "b".to_string()]);
    assert_eq!(p.1, "leaf");
    assert_eq!(p.to_text(), "a.b.leaf");
    let q = ModulePath::parse("single").unwrap();
    assert!(q.0.is_empty());
    assert_eq!(q.1, "single");
    assert_eq!(ModulePath::parse("").unwrap_err(), ModulePathParseError::NotEnoughItems);
    assert_eq!(ModulePath::parse("a.").unwrap_err(), ModulePathParseError::NotEnoughItems);
}

#[test]
fn absolute_node_id_round_trip() {
    let id = AbsoluteNodeId(ModulePath(vec!["lib".to_string()], "prog".to_string()), 4711);
    let text = id.to_text();
    assert_eq!(text, "lib.prog@4711");
    let back = AbsoluteNodeId::parse(&text).unwrap();
    assert!(back.same_as(&id));
    let at = AbsoluteNodeId::parse("a@b@7").unwrap();
    assert_eq!(at.0 .1, "a@b");
    assert_eq!(at.1, 7);
}

#[test]
fn absolute_node_id_errors() {
    assert_eq!(AbsoluteNodeId::parse("noat").unwrap_err(), AbsoluteNodeIdParseError::IdNotFound);
    assert_eq!(AbsoluteNodeId::parse("p@x").unwrap_err(), AbsoluteNodeIdParseError::NodeIdParseError);
    assert_eq!(
        AbsoluteNodeId::parse("p@4294967296").unwrap_err(),
        AbsoluteNodeIdParseError::NodeIdParseError
    );
    assert_eq!(
        AbsoluteNodeId::parse("@3").unwrap_err(),
        AbsoluteNodeIdParseError::ProgramIdParseError(ModulePathParseError::NotEnoughItems)
    );
}

#[test]
fn packed_ids_round_trip() {
    let s = SocketId(7, 3);
    let n = s.to_u64();
    assert_eq!(n, (7u64 << 32) | 3);
    assert_eq!(SocketId::from_u64(n), s);
    let b = NodeBranchId(0xFFFF_FFFF, 0xFFFF_FFFF);
    let m = b.to_u64();
    assert_eq!(m, u64::MAX);
    let back = NodeBranchId::from_u64(m);
    assert_eq!((back.0, back.1), (0xFFFF_FFFF, 0xFFFF_FFFF));
}

#[test]
fn variant_grammar_round_trips() {
    let cases = [
        (print_class(), "print:3"),
        (print_class(), "println:1"),
        (stainless_script::stdlib::start_node_class(), "start#main#[\"number\",\"any\"]"),
        (stainless_script::stdlib::end_node_class(), "end[\"number\"]"),
        (stainless_script::stdlib::array_class(), "array-12"),
        (stainless_script::stdlib::subroutine_class(), "supplied"),
        (stainless_script::stdlib::subroutine_class(), "subroutine:a.b@1:c@2"),
    ];
    for (class, text) in cases.iter() {
        let mut n = class.nodes[0].clone_node();
        n.set_variant(text).unwrap();
        assert_eq!(n.current_variant(), *text);
    }
    let mut p = print_class().nodes[0].clone_node();
    p.set_variant("print").unwrap();
    assert_eq!(p.current_variant(), "print:1");
    assert!(p.set_variant("shout:2").is_err());
    assert!(p.set_variant("print:x").is_err());
}

#[test]
fn node_sockets_follow_variant() {
    let mut a = Node::Array(ArrayConstructor(1));
    a.set_variant("array-3").unwrap();
    assert_eq!(a.inputs().len(), 3);
    assert_eq!(a.outputs()[0].class.name, "array");
    assert_eq!(Node::If(IfNode).branches(), 2);
    assert_eq!(Node::Nop(NopNode).branches(), 1);
    let mut s = stainless_script::stdlib::start_node_class().nodes[0].clone_node();
    s.set_variant("start#main#[\"number\"]").unwrap();
    let outs = s.outputs();
    assert_eq!(outs.len(), 1);
    assert_eq!(outs[0].class.name, "number");
    assert_eq!(outs[0].class.parser, Some(TextParser::Number));
}

#[test]
fn object_text_and_coercions() {
    let arr = Object::Array(vec![Object::Number(1), Object::Text("x".to_string()), Object::Bool(true)]);
    assert_eq!(arr.as_text(), "[1, x, true]");
    assert_eq!(arr.as_bool(), Ok(true));
    assert_eq!(Object::Array(vec![]).as_bool(), Ok(false));
    assert_eq!(Object::Number(-12).as_text(), "-12");
    assert_eq!(Object::Number(0).as_bool(), Ok(false));
    assert_eq!(Object::Text(String::new()).as_bool(), Ok(false));
    assert_eq!(Object::Any(AnyType("-5".to_string())).as_number(), Ok(-5));
    assert_eq!(Object::Bool(true).as_number(), Ok(1));
    assert_eq!(arr.as_number(), Err(ObjectError::NotANumber));
    let sub = Object::Subroutine(Subroutine {
        input: AbsoluteNodeId(ModulePath(vec![], "m".to_string()), 1),
        output: AbsoluteNodeId(ModulePath(vec![], "m".to_string()), 2),
    });
    assert_eq!(sub.as_bool(), Err(ObjectError::NotABool));
}

#[test]
fn any_cast_uses_target_parser() {
    let x = Object::Any(AnyType("42".to_string()));
    let n = x.cast_to(number_class().obj_from_str).unwrap();
    assert_eq!(n.class_name(), "number");
    assert_eq!(n.as_number(), Ok(42));
    let b = Object::Any(AnyType("true".to_string())).cast_to(Some(TextParser::Bool)).unwrap();
    assert_eq!(b.as_bool(), Ok(true));
    let a = Object::Any(AnyType("[1, 2]".to_string())).cast_to(Some(TextParser::Array)).unwrap();
    assert_eq!(a.as_text(), "[1, 2]");
    assert_eq!(
        Object::Any(AnyType("maybe".to_string())).cast_to(Some(TextParser::Bool)).unwrap_err(),
        ObjectError::ParseFailed
    );
    assert_eq!(Object::Any(AnyType("1".to_string())).cast_to(None).unwrap_err(), ObjectError::NoParser);
    assert_eq!(
        Object::Number(1).cast_to(any_class().obj_from_str).unwrap_err(),
        ObjectError::CastUnsupported
    );
}

#[test]
fn node_storage_smallest_free_id() {
    let mut s = NodeStorage::new();
    assert_eq!(s.insert_node(Node::Nop(NopNode)), Some(0));
    assert_eq!(s.insert_node(Node::Nop(NopNode)), Some(1));
    s.insert_node_at(3, Node::If(IfNode));
    assert_eq!(s.insert_node(Node::Nop(NopNode)), Some(2));
    assert_eq!(s.insert_node(Node::Nop(NopNode)), Some(4));
    assert!(s.remove_node(1).is_some());
    assert!(s.remove_node(1).is_none());
    assert_eq!(s.insert_node(Node::Print(Print { ln: false, amount: 2 })), Some(1));
    assert_eq!(s.get_node(3).unwrap().class_name(), "if");
    assert_eq!(s.get_node(3).unwrap().class_name(), "if");
    assert!(s.get_node(9).is_none());
}

fn sample_loaded() -> LoadedProgram {
    let p = Program {
        imports: None,
        nodes: vec![],
        classes: vec![],
        branch_edges: vec![(NodeBranchId(1, 0), 2), (NodeBranchId(1, 1), 3)],
        connections: vec![
            Connection { output: OutputSocketId(SocketId(1, 0)), input: InputSocketId(SocketId(2, 0)) },
            Connection { output: OutputSocketId(SocketId(1, 0)), input: InputSocketId(SocketId(3, 1)) },
            Connection { output: OutputSocketId(SocketId(1, 1)), input: InputSocketId(SocketId(2, 1)) },
            Connection { output: OutputSocketId(SocketId(5, 0)), input: InputSocketId(SocketId(2, 2)) },
        ],
        const_inputs: vec![],
    };
    LoadedProgram::from_program(&p)
}

#[test]
fn next_node_defined_iff_edge() {
    let lp = sample_loaded();
    assert_eq!(lp.get_next_node(1, 0), Some(2));
    assert_eq!(lp.get_next_node(1, 1), Some(3));
    assert_eq!(lp.get_next_node(1, 2), None);
    assert_eq!(lp.get_next_node(2, 0), None);
}

#[test]
fn set_outputs_touches_only_that_node() {
    let mut lp = sample_loaded();
    lp.set_outputs(1, &vec![Object::Number(7), Object::Text("b".to_string())]);
    assert_eq!(lp.connections[0].1.as_ref().unwrap().as_text(), "7");
    assert_eq!(lp.connections[1].1.as_ref().unwrap().as_text(), "7");
    assert_eq!(lp.connections[2].1.as_ref().unwrap().as_text(), "b");
    assert!(lp.connections[3].1.is_none());
    let sockets = any_class_sockets(3);
    let ins = lp.get_inputs(2, &sockets).unwrap();
    assert_eq!(ins.len(), 2);
    assert_eq!(ins[0].as_ref().unwrap().as_text(), "7");
    assert_eq!(ins[1].as_ref().unwrap().as_text(), "b");
    let none = lp.get_inputs(9, &sockets).unwrap();
    assert!(none.is_empty());
}

fn any_class_sockets(n: usize) -> Vec<stainless_script::socket::InputSocket> {
    (0..n)
        .map(|_| stainless_script::socket::InputSocket {
            class: stainless_script::stdlib::class_ref_of("any"),
        })
        .collect()
}

#[test]
fn registry_insert_and_lookup() {
    let mut m = Module::new();
    let path = ModulePath(vec!["std".to_string()], "any".to_string());
    assert!(m.insert(path.clone(), any_class()).is_ok());
    assert_eq!(m.get_class(&path).unwrap().name, "any");
    let through = ModulePath(vec!["std".to_string(), "any".to_string()], "x".to_string());
    assert_eq!(m.insert(through, any_class()), Err(ModuleError::NonModuleSegment));
    assert!(m.get_class(&ModulePath(vec![], "std".to_string())).is_none());
    let classes = StdPlugin::std_classes();
    assert_eq!(classes.len(), 13);
}

#[test]
fn program_format_from_suffix() {
    assert_eq!(format_from_filename("main.ron.ssc"), Some(ProgramFormat::Ron));
    assert_eq!(format_from_filename("x.json.ssc"), Some(ProgramFormat::Json));
    assert_eq!(format_from_filename("y.bin.ssc"), Some(ProgramFormat::Bincode));
    assert_eq!(format_from_filename("z.ssc"), None);
}

#[test]
fn object_equality_by_class_and_value() {
    let a = Object::Array(vec![Object::Number(1), Object::Text("x".to_string())]);
    let b = Object::Array(vec![Object::Number(1), Object::Text("x".to_string())]);
    let c = Object::Array(vec![Object::Number(1), Object::Text("y".to_string())]);
    assert!(a.object_eq(&b));
    assert!(!a.object_eq(&c));
    assert!(!Object::Number(1).object_eq(&Object::Text("1".to_string())));
    assert!(!Object::Any(AnyType("1".to_string())).object_eq(&Object::Text("1".to_string())));
    assert!(Object::Bool(false).object_eq(&Object::Bool(false)));
}

#[test]
fn object_partial_order() {
    assert_eq!(Object::Number(2).object_cmp(&Object::Number(10)), Some(Ordering::Less));
    assert_eq!(Object::Number(3).object_cmp(&Object::Number(3)), Some(Ordering::Equal));
    assert_eq!(
        Object::Text("b".to_string()).object_cmp(&Object::Text("ab".to_string())),
        Some(Ordering::Greater)
    );
    assert_eq!(
        Object::Text("ab".to_string()).object_cmp(&Object::Text("abc".to_string())),
        Some(Ordering::Less)
    );
    assert_eq!(Object::Bool(false).object_cmp(&Object::Bool(true)), Some(Ordering::Less));
    assert_eq!(Object::Number(1).object_cmp(&Object::Text("1".to_string())), None);
    assert_eq!(Object::Array(vec![]).object_cmp(&Object::Array(vec![])), None);
}

#[test]
fn object_fields() {
    let mut arr = Object::Array(vec![Object::Number(5), Object::Number(6)]);
    assert_eq!(arr.get_field(&Object::Number(1)).unwrap().as_text(), "6");
    assert_eq!(arr.get_field(&Object::Text("len".to_string())).unwrap().as_text(), "2");
    assert_eq!(arr.get_field(&Object::Number(2)).unwrap_err(), ObjectError::UnknownField);
    assert_eq!(arr.get_field(&Object::Text("size".to_string())).unwrap_err(), ObjectError::UnknownField);
    arr.set_field(&Object::Number(0), Object::Bool(true)).unwrap();
    assert_eq!(arr.as_text(), "[true, 6]");
    assert_eq!(arr.set_field(&Object::Number(9), Object::Bool(true)), Err(ObjectError::UnknownField));
    let n = Object::Number(4);
    assert_eq!(n.get_field(&Object::Text("is_integer".to_string())).unwrap().as_text(), "true");
    assert_eq!(n.get_field(&Object::Text("as_integer".to_string())).unwrap().as_text(), "4");
    assert_eq!(
        Object::Bool(true).get_field(&Object::Number(0)).unwrap_err(),
        ObjectError::NoFields
    );
    let mut t = Object::Text("s".to_string());
    assert_eq!(t.set_field(&Object::Number(0), Object::Bool(true)), Err(ObjectError::NoFields));
}

#[test]
fn number_text_parse_limits() {
    let max = Object::Any(AnyType(i64::MAX.to_string()));
    assert_eq!(max.as_number(), Ok(i64::MAX));
    let min = Object::Any(AnyType(i64::MIN.to_string()));
    assert_eq!(min.as_number(), Ok(i64::MIN));
    assert_eq!(Object::Number(i64::MIN).as_text(), i64::MIN.to_string());
    let over = Object::Any(AnyType("9223372036854775808".to_string()));
    assert_eq!(over.as_number(), Err(ObjectError::NotANumber));
    assert_eq!(Object::Any(AnyType("-".to_string())).as_number(), Err(ObjectError::NotANumber));
    assert_eq!(Object::Any(AnyType(String::new())).as_number(), Err(ObjectError::NotANumber));
}

#[test]
fn subroutine_boundary_classes() {
    let id = AbsoluteNodeId(ModulePath(vec![], "__main__".to_string()), 10);
    assert_eq!(stainless_script::stdlib::subroutine_input_class(&id).name, "subroutine_input@__main__@10");
    assert_eq!(stainless_script::stdlib::subroutine_output_class(&id).name, "subroutine_output@__main__@10");
    assert_eq!(stainless_script::stdlib::supplied_subroutine_io_class().name, "from_supplied_subroutine");
    let mut call = stainless_script::stdlib::subroutine_class().nodes[0].clone_node();
    assert_eq!(call.inputs()[1].class.name, "from_supplied_subroutine");
    call.set_variant("subroutine:__main__@10:__main__@11").unwrap();
    assert_eq!(call.inputs()[0].class.name, "subroutine_input@__main__@10");
    assert_eq!(call.outputs()[0].class.name, "subroutine_output@__main__@11");
}

#[test]
fn classes_equal_by_name() {
    let a = any_class();
    let mut b = number_class();
    assert!(!a.same_class(&b));
    b.name = "any".to_string();
    assert!(a.same_class(&b));
}

#[test]
fn node_variant_names() {
    assert_eq!(Node::Nop(NopNode).variants(), vec!["nop".to_string()]);
    let p = Node::Print(Print { ln: true, amount: 2 });
    assert_eq!(p.variants(), vec!["print".to_string(), "println".to_string(), "println:2".to_string()]);
    let s = stainless_script::stdlib::start_node_class().nodes[0].clone_node();
    assert_eq!(s.variants(), vec!["start#default#[]".to_string(), "start#default#[]".to_string()]);
    let mut call = stainless_script::stdlib::subroutine_class().nodes[0].clone_node();
    assert_eq!(call.variants(), vec!["supplied".to_string()]);
    call.set_variant("subroutine:m@1:m@2").unwrap();
    assert_eq!(call.variants(), vec!["subroutine:m@1:m@2".to_string(), "supplied".to_string()]);
}

#[test]
fn removing_one_node_keeps_the_others() {
    let mut s = NodeStorage::new();
    s.insert_node_at(1, Node::If(IfNode));
    s.insert_node_at(2, Node::Print(Print { ln: false, amount: 3 }));
    assert_eq!(s.remove_node(1).unwrap().class_name(), "if");
    assert_eq!(s.get_node(2).unwrap().current_variant(), "print:3");
    assert_eq!(s.insert_node(Node::Nop(NopNode)), Some(0));
    assert_eq!(s.insert_node(Node::Nop(NopNode)), Some(1));
    assert_eq!(s.insert_node(Node::Nop(NopNode)), Some(3));
}

#[test]
fn std_plugin_classes_carry_names_and_prototypes() {
    let classes = StdPlugin.classes();
    assert_eq!(classes.len(), 13);
    for (path, class) in classes.iter() {
        assert_eq!(path.0, vec!["std".to_string()]);
        assert_eq!(path.1, class.name);
        assert_eq!(class.nodes.len(), 1);
    }
    assert_eq!(classes[3].1.nodes[0].current_variant(), "start#default#[]");
    assert_eq!(classes[7].1.obj_from_str, Some(TextParser::Number));
}
