use stainless_script::class::ProtoClass;
use stainless_script::module::ModulePath;
use stainless_script::node::{AbsoluteNodeId, NodeBranchId, NodeInfo};
use stainless_script::object::Object;
use stainless_script::program::{LoadError, Program, ProgramCollection};
use stainless_script::socket::{Connection, InputSocketId, OutputSocketId, SocketId};
use stainless_script::stdlib::StdPlugin;
use stainless_script::{Executor, StepError};

fn std_path(name: &str) -> ModulePath {
    ModulePath(vec!["std".to_string()], name.to_string())
}

fn main_path() -> ModulePath {
    ModulePath(vec![], "__main__".to_string())
}

fn info(class: &str, variant: &str) -> NodeInfo {
    NodeInfo { class: std_path(class), idx: 0, variant: variant.to_string() }
}

fn edge(from: u32, branch: usize, to: u32) -> (NodeBranchId, u32) {
    (NodeBranchId(from, branch), to)
}

fn konst(node: u32, idx: usize, text: &str) -> (InputSocketId, String) {
    (InputSocketId(SocketId(node, idx)), text.to_string())
}

fn conn(from: u32, out: usize, to: u32, input: usize) -> Connection {
    Connection {
        output: OutputSocketId(SocketId(from, out)),
        input: InputSocketId(SocketId(to, input)),
    }
}

fn program(
    nodes: Vec<(u32, NodeInfo)>,
    branch_edges: Vec<(NodeBranchId, u32)>,
    connections: Vec<Connection>,
    const_inputs: Vec<(InputSocketId, String)>,
) -> Program {
    Program { imports: None, nodes, classes: vec![], branch_edges, connections, const_inputs }
}

fn run_main(p: Program) -> Executor {
    let mut ex = Executor::new();
    ex.load_plugin(&StdPlugin).unwrap();
    ex.load_program(&p, &main_path()).unwrap();
    ex
}

fn hello_program() -> Program {
    program(
        vec![
            (0, info("start", "start#main#[]")),
            (1, info("print", "println")),
            (2, info("end", "end[]")),
        ],
        vec![edge(0, 0, 1), edge(1, 0, 2)],
        vec![],
        vec![konst(1, 0, "hello")],
    )
}

#[test]
fn print_hello_then_end() {
    let mut ex = run_main(hello_program());
    ex.start_execution(true).unwrap();
    assert_eq!(ex.take_output(), "hello\n");
    assert!(ex.node_stack.is_empty());
}

#[test]
fn if_takes_true_branch_of_any_one() {
    let p = program(
        vec![
            (0, info("start", "start#main#[]")),
            (1, info("bool", "from-object")),
            (2, info("if", "if")),
            (3, info("print", "print")),
            (4, info("print", "print")),
            (5, info("end", "end[]")),
        ],
        vec![edge(0, 0, 1), edge(1, 0, 2), edge(2, 1, 3), edge(2, 0, 4), edge(3, 0, 5), edge(4, 0, 5)],
        vec![conn(1, 0, 2, 0)],
        vec![konst(1, 0, "1"), konst(3, 0, "T"), konst(4, 0, "F")],
    );
    let mut ex = run_main(p);
    ex.start_execution(true).unwrap();
    assert_eq!(ex.take_output(), "T");
    assert!(ex.node_stack.is_empty());
}

#[test]
fn array_constructor_prints_list() {
    let p = program(
        vec![
            (0, info("start", "start#main#[]")),
            (1, info("array", "array-3")),
            (2, info("print", "print")),
            (3, info("end", "end[]")),
        ],
        vec![edge(0, 0, 1), edge(1, 0, 2), edge(2, 0, 3)],
        vec![conn(1, 0, 2, 0)],
        vec![konst(1, 0, "1"), konst(1, 1, "2"), konst(1, 2, "3")],
    );
    let mut ex = run_main(p);
    ex.start_execution(true).unwrap();
    assert_eq!(ex.take_output(), "[1, 2, 3]");
}

fn subroutine_program() -> Program {
    program(
        vec![
            (0, info("start", "start#main#[]")),
            (1, NodeInfo {
                class: std_path("subroutine"),
                idx: 0,
                variant: "subroutine:__main__@10:__main__@11".to_string(),
            }),
            (2, info("print", "print:2")),
            (3, info("end", "end[]")),
            (10, info("start", "start#sub#[\"number\",\"number\"]")),
            (11, info("end", "end[\"number\",\"number\"]")),
        ],
        vec![edge(0, 0, 1), edge(1, 0, 2), edge(2, 0, 3), edge(10, 0, 11)],
        vec![conn(10, 0, 11, 1), conn(10, 1, 11, 0), conn(1, 0, 2, 0), conn(1, 1, 2, 1)],
        vec![konst(1, 0, "2"), konst(1, 1, "3")],
    )
}

#[test]
fn fixed_subroutine_returns_to_caller_outputs() {
    let mut ex = run_main(subroutine_program());
    ex.start_execution(false).unwrap();
    assert_eq!(ex.node_stack.len(), 1);
    ex.execute_step().unwrap();
    // the call: the entry node is pushed above the caller, then advanced past
    ex.execute_step().unwrap();
    assert_eq!(ex.node_stack.len(), 2);
    ex.execute_step().unwrap();
    assert_eq!(ex.node_stack.len(), 1);
    let top = ex.node_stack[0].as_ref().unwrap();
    assert_eq!(top.1, 2);
    ex.execute_step().unwrap();
    // the subroutine swapped its two number arguments
    assert_eq!(ex.take_output(), "3 2");
    ex.execute_step().unwrap();
    assert!(ex.node_stack.is_empty());
    assert_eq!(ex.execute_step(), Err(StepError::Finished));
}

#[test]
fn breakpoint_halts_then_resume_completes() {
    let mut ex = run_main(hello_program());
    ex.stop_point = Some(AbsoluteNodeId(main_path(), 1));
    ex.start_execution(true).unwrap();
    assert!(!ex.auto_execution);
    assert_eq!(ex.current_node().unwrap().1, 1);
    assert_eq!(ex.take_output(), "");
    ex.resume_auto().unwrap();
    assert!(ex.node_stack.is_empty());
    assert_eq!(ex.take_output(), "hello\n");
}

#[test]
fn resume_until_stops_before_the_node() {
    let mut ex = run_main(hello_program());
    ex.start_execution(false).unwrap();
    ex.resume_until(AbsoluteNodeId(main_path(), 2)).unwrap();
    assert_eq!(ex.current_node().unwrap().1, 2);
    assert_eq!(ex.take_output(), "hello\n");
}

#[test]
fn start_and_end_only_terminates_at_once() {
    let p = program(
        vec![(0, info("start", "start#main#[]")), (1, info("end", "end[]"))],
        vec![edge(0, 0, 1)],
        vec![],
        vec![],
    );
    let mut ex = run_main(p);
    ex.start_execution(true).unwrap();
    assert!(ex.node_stack.is_empty());
    assert_eq!(ex.take_output(), "");
}

#[test]
fn missing_edge_falls_into_implicit_end() {
    let p = program(
        vec![(0, info("start", "start#main#[]")), (1, info("print", "print"))],
        vec![edge(0, 0, 1)],
        vec![],
        vec![konst(1, 0, "x")],
    );
    let mut ex = run_main(p);
    ex.start_execution(true).unwrap();
    assert!(ex.node_stack.is_empty());
    assert_eq!(ex.take_output(), "x");
}

#[test]
fn variables_set_and_get() {
    let p = program(
        vec![
            (0, info("start", "start#main#[]")),
            (1, info("variable_set", "set")),
            (2, info("variable_get", "get")),
            (3, info("print", "print")),
            (4, info("end", "end[]")),
        ],
        vec![edge(0, 0, 1), edge(1, 0, 2), edge(2, 0, 3), edge(3, 0, 4)],
        vec![conn(2, 0, 3, 0)],
        vec![konst(1, 0, "v"), konst(1, 1, "42"), konst(2, 0, "v")],
    );
    let mut ex = run_main(p);
    ex.start_execution(true).unwrap();
    assert_eq!(ex.take_output(), "42");
    assert_eq!(ex.get_variable(&"v".to_string()).unwrap().as_text(), "42");
    assert!(ex.get_variable(&"w".to_string()).is_none());
}

#[test]
fn missing_main_start_is_an_error() {
    let mut ex = Executor::new();
    ex.load_plugin(&StdPlugin).unwrap();
    assert_eq!(ex.start_execution(true), Err(StepError::MissingStart));
}

#[test]
fn load_rejects_unknown_class_and_bad_index() {
    let mut ex = Executor::new();
    ex.load_plugin(&StdPlugin).unwrap();
    let p = program(vec![(0, info("nothing", "x"))], vec![], vec![], vec![]);
    assert_eq!(ex.load_program(&p, &main_path()), Err(LoadError::UnknownClass));
    let mut ex = Executor::new();
    ex.load_plugin(&StdPlugin).unwrap();
    let bad = NodeInfo { class: std_path("nop"), idx: 1, variant: "nop".to_string() };
    let p = program(vec![(0, bad)], vec![], vec![], vec![]);
    assert_eq!(ex.load_program(&p, &main_path()), Err(LoadError::PrototypeOutOfRange));
}

#[test]
fn load_rejects_bad_variant_and_duplicates() {
    let mut ex = Executor::new();
    ex.load_plugin(&StdPlugin).unwrap();
    let p = program(vec![(0, info("array", "array-x"))], vec![], vec![], vec![]);
    assert_eq!(ex.load_program(&p, &main_path()), Err(LoadError::InvalidVariant));
    let mut ex = run_main(hello_program());
    assert_eq!(ex.load_program(&hello_program(), &main_path()), Err(LoadError::DuplicateProgram));
}

#[test]
fn declared_class_gets_its_method_nodes() {
    let mut p = hello_program();
    p.classes = vec![ProtoClass { name: "Greeter".to_string(), nodes: vec![1] }];
    let ex = run_main(p);
    let path = ModulePath(vec!["__main__".to_string()], "Greeter".to_string());
    let class = ex.get_class(&path).unwrap();
    assert_eq!(class.name, "Greeter");
    assert_eq!(class.nodes.len(), 1);
    assert_eq!(class.nodes[0].current_variant(), "println:1");
}

#[test]
fn load_programs_loads_each_member() {
    let coll = ProgramCollection {
        programs: vec![
            (ModulePath(vec!["lib".to_string()], "util".to_string()), hello_program()),
            (main_path(), hello_program()),
        ],
    };
    let mut ex = Executor::new();
    ex.load_plugin(&StdPlugin).unwrap();
    ex.load_programs(&coll).unwrap();
    ex.start_execution(true).unwrap();
    assert_eq!(ex.take_output(), "hello\n");
}

#[test]
fn cast_error_surfaces_at_step() {
    let p = program(
        vec![
            (0, info("start", "start#main#[]")),
            (1, info("number", "from-object")),
            (2, info("end", "end[]")),
        ],
        vec![edge(0, 0, 1), edge(1, 0, 2)],
        vec![],
        vec![konst(1, 0, "abc")],
    );
    let mut ex = run_main(p);
    assert!(matches!(ex.start_execution(true), Err(StepError::Object(_))));
}

#[test]
fn subroutine_object_text_round_trip() {
    let sub = Object::from_text(
        stainless_script::class::TextParser::Subroutine,
        "subroutine:__main__@10:__main__@11",
    )
    .unwrap();
    assert_eq!(sub.as_text(), "subroutine:__main__@10:__main__@11");
    assert_eq!(sub.class_name(), "subroutine");
}

#[test]
fn node_behaviours_on_values() {
    let t = vec![Object::Text("yes".to_string())];
    assert_eq!(stainless_script::executor::if_branch(&t), Ok(1));
    assert_eq!(stainless_script::executor::if_branch(&vec![Object::Number(0)]), Ok(0));
    assert_eq!(stainless_script::executor::if_branch(&vec![]), Err(StepError::MissingInput));
    let b = stainless_script::executor::bool_output(&vec![Object::Array(vec![])]).unwrap();
    assert_eq!(b.as_text(), "false");
    let n = stainless_script::executor::number_output(&vec![Object::Text("17".to_string())]).unwrap();
    assert_eq!(n.as_number(), Ok(17));
    let s = stainless_script::executor::string_output(&vec![Object::Bool(true)]).unwrap();
    assert_eq!(s.class_name(), "string");
    assert_eq!(s.as_text(), "true");
    let a = stainless_script::executor::array_output(vec![Object::Number(1), Object::Number(2)]);
    assert_eq!(a.as_text(), "[1, 2]");
    let mut out = String::new();
    stainless_script::executor::write_print(&mut out, &vec![Object::Number(1), Object::Text("a".to_string())], true);
    assert_eq!(out, "1 a\n");
}

#[test]
fn load_rejects_repeated_keys_and_bad_sockets() {
    let mut ex = Executor::new();
    ex.load_plugin(&StdPlugin).unwrap();
    let mut p = hello_program();
    p.branch_edges.push(edge(0, 0, 2));
    assert_eq!(ex.load_program(&p, &main_path()), Err(LoadError::DuplicateKey));
    let mut p = hello_program();
    p.connections.push(conn(0, 0, 1, usize::MAX));
    assert_eq!(ex.load_program(&p, &main_path()), Err(LoadError::InvalidSocket));
    let mut p = hello_program();
    p.classes = vec![
        ProtoClass { name: "Twice".to_string(), nodes: vec![] },
        ProtoClass { name: "Twice".to_string(), nodes: vec![] },
    ];
    assert_eq!(ex.load_program(&p, &main_path()), Err(LoadError::DuplicateClass));
    let mut p = hello_program();
    p.classes = vec![ProtoClass { name: "Ghost".to_string(), nodes: vec![7] }];
    let mut ex2 = Executor::new();
    ex2.load_plugin(&StdPlugin).unwrap();
    assert_eq!(ex2.load_program(&p, &main_path()), Err(LoadError::UnknownNode));
}

#[test]
fn resume_until_current_top_runs_nothing() {
    let mut ex = run_main(hello_program());
    ex.start_execution(false).unwrap();
    ex.resume_until(AbsoluteNodeId(main_path(), 0)).unwrap();
    assert_eq!(ex.current_node().unwrap().1, 0);
    assert!(!ex.auto_execution);
    assert_eq!(ex.take_output(), "");
}

#[test]
fn breakpoint_on_start_node_halts_before_it() {
    let mut ex = run_main(hello_program());
    ex.stop_point = Some(AbsoluteNodeId(main_path(), 0));
    ex.start_execution(true).unwrap();
    assert_eq!(ex.node_stack.len(), 1);
    assert_eq!(ex.current_node().unwrap().1, 0);
    ex.resume_auto().unwrap();
    assert!(ex.node_stack.is_empty());
    assert_eq!(ex.take_output(), "hello\n");
}

#[test]
fn finish_on_empty_stack_changes_nothing() {
    let mut ex = Executor::new();
    ex.finish_subroutine(vec![Object::Number(1)]);
    assert!(ex.node_stack.is_empty());
}

#[test]
fn failed_step_leaves_executor_unchanged() {
    let p = program(
        vec![(0, info("start", "start#main#[]")), (1, info("number", "from-object"))],
        vec![edge(0, 0, 1)],
        vec![],
        vec![konst(1, 0, "x")],
    );
    let mut ex = run_main(p);
    ex.start_execution(false).unwrap();
    ex.execute_step().unwrap();
    assert_eq!(ex.current_node().unwrap().1, 1);
    assert!(matches!(ex.execute_step(), Err(StepError::Object(_))));
    assert_eq!(ex.current_node().unwrap().1, 1);
    assert_eq!(ex.node_stack.len(), 1);
}
