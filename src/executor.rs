//! The executor: a call stack of node ids, the loaded programs, the variable scope, and
//! step-by-step or automatic advance with a breakpoint.
use vstd::prelude::*;
use crate::class::Class;
use crate::module::{full_key, ModulePath};
use crate::node::{AbsIdView, AbsoluteNodeId, Node, NodeId, NodeView};
use crate::object::{
    cast_view, class_name_of, number_of, text_of, truthy, Object, ObjectError, ObjectView,
};
use crate::program::{
    const_ok, data_written, lemma_gathered_same_sockets, lemma_written_same_nodes, same_nodes, loaded_from, stored, first_start, gathered, has_edge, has_start, lemma_gathered_unique,
    slot_view,
};
use crate::class::TextParser;
use crate::program::{LoadError, LoadedProgramData, Program, ProgramCollection};
use crate::socket::InputSocket;
use crate::stdlib::{Plugin, SubroutineCallTarget};
use crate::text::{chars_of, has_prefix, push_char, push_str, string_of_range, text_is};

verus! {

#[derive(Debug, Clone, Copy, PartialEq, Eq, Structural)]
pub enum StepError {
    /// The call stack is empty: execution has finished.
    Finished,
    /// The stack names a node that no loaded program has.
    UnknownNode,
    /// Program `__main__` has no start node for entry `main`.
    MissingStart,
    /// A node needs an input that is absent.
    MissingInput,
    /// A `supplied` subroutine call did not receive a subroutine object.
    NotASubroutine,
    /// An object could not be read, parsed or cast.
    Object(ObjectError),
    /// The automatic loop ran for the largest number of steps it counts.
    StepLimit,
}

/// The view of a stack frame: an absolute node id, or the implicit end node.
pub open spec fn frame_view(f: Option<AbsoluteNodeId>) -> Option<AbsIdView> {
    match f {
        Some(a) => Some(a.id_view()),
        None => None,
    }
}

pub open spec fn stack_view(s: Seq<Option<AbsoluteNodeId>>) -> Seq<Option<AbsIdView>> {
    s.map_values(|f: Option<AbsoluteNodeId>| frame_view(f))
}

/// Runs loaded programs. The top of the stack is the node that executes next; an empty
/// frame stands for the implicit end node reached when a branch has no edge.
pub struct Executor {
    pub node_stack: Vec<Option<AbsoluteNodeId>>,
    pub loaded: LoadedProgramData,
    pub auto_execution: bool,
    pub stop_point: Option<AbsoluteNodeId>,
    pub variables: Vec<(String, Object)>,
    /// Text written by print nodes, for the host to emit.
    pub output: String,
    /// How many steps the automatic loop has taken.
    pub steps: Ghost<nat>,
}

/// `id` is the start node of entry `main` in program `__main__`.
pub open spec fn main_entry(d: LoadedProgramData, id: NodeId) -> bool {
    exists|i: int|
        0 <= i < d.programs@.len() && full_key(#[trigger] d.programs@[i].0) == seq!["__main__"@]
            && first_start(d.programs@[i].1, "main"@, id)
}

pub open spec fn has_main(d: LoadedProgramData) -> bool {
    exists|i: int|
        0 <= i < d.programs@.len() && full_key(#[trigger] d.programs@[i].0) == seq!["__main__"@]
            && has_start(d.programs@[i].1, "main"@)
}

/// Joins rendered texts with single spaces.
pub open spec fn join_spaces(parts: Seq<Seq<char>>) -> Seq<char>
    decreases parts.len(),
{
    if parts.len() == 0 {
        Seq::<char>::empty()
    } else if parts.len() == 1 {
        parts[0]
    } else {
        join_spaces(parts.drop_last()) + seq![' '] + parts.last()
    }
}

/// What a print node writes for its inputs.
pub open spec fn print_text(values: Seq<ObjectView>, ln: bool) -> Seq<char> {
    join_spaces(values.map_values(|v: ObjectView| text_of(v))) + if ln {
        seq!['\n']
    } else {
        Seq::<char>::empty()
    }
}

/// Every input is present.
pub fn all_present(values: Vec<Option<Object>>) -> (r: Result<Vec<Object>, StepError>)
    ensures
        r is Ok <==> forall|i: int| 0 <= i < values@.len() ==> (#[trigger] values@[i]) is Some,
        r matches Ok(v) ==> v@.len() == values@.len() && forall|i: int|
            0 <= i < v@.len() ==> Some(#[trigger] v@[i]) == values@[i],
        r is Err ==> r == Err::<Vec<Object>, StepError>(StepError::MissingInput),
{
    let ghost orig = values@;
    let mut rest = values;
    let mut out: Vec<Object> = Vec::new();
    while rest.len() > 0
        invariant
            orig == values@,
            out@.len() + rest@.len() == orig.len(),
            rest@ == orig.subrange(out@.len() as int, orig.len() as int),
            forall|i: int| 0 <= i < out@.len() ==> Some(#[trigger] out@[i]) == orig[i],
        decreases rest@.len(),
    {
        let v = rest.remove(0);
        match v {
            None => {
                assert(orig[out@.len() as int] is None);
                assert(!(forall|i: int| 0 <= i < orig.len() ==> (#[trigger] orig[i]) is Some));
                return Err(StepError::MissingInput);
            },
            Some(o) => {
                out.push(o);
                assert(rest@ =~= orig.subrange(out@.len() as int, orig.len() as int));
            },
        }
    }
    assert forall|i: int| 0 <= i < orig.len() implies (#[trigger] orig[i]) is Some by {
        assert(Some(out@[i]) == orig[i]);
    }
    Ok(out)
}

/// Appends the texts of the values joined by spaces, then a newline if `ln`.
pub fn write_print(out: &mut String, values: &Vec<Object>, ln: bool)
    ensures
        final(out)@ == old(out)@ + print_text(values@.map_values(|o: Object| o.view()), ln),
{
    let ghost start = out@;
    let ghost texts = values@.map_values(|o: Object| o.view()).map_values(
        |v: ObjectView| text_of(v),
    );
    let mut i: usize = 0;
    while i < values.len()
        invariant
            i <= values@.len(),
            texts == values@.map_values(|o: Object| o.view()).map_values(
                |v: ObjectView| text_of(v),
            ),
            out@ == start + join_spaces(texts.subrange(0, i as int)),
        decreases values@.len() - i,
    {
        if i > 0 {
            push_char(out, ' ');
        }
        values[i].write_text(out);
        proof {
            let p = texts.subrange(0, i + 1);
            assert(p.drop_last() =~= texts.subrange(0, i as int));
            assert(p.last() == text_of(values@[i as int].view()));
            if i == 0 {
                assert(texts.subrange(0, 0) =~= Seq::<Seq<char>>::empty());
            }
        }
        i = i + 1;
        assert(out@ =~= start + join_spaces(texts.subrange(0, i as int)));
    }
    assert(texts.subrange(0, i as int) =~= texts);
    if ln {
        push_char(out, '\n');
    }
    assert(out@ =~= start + print_text(values@.map_values(|o: Object| o.view()), ln));
}

/// What a node sees of an input value through a socket expecting class `name`: absent
/// stays absent; a value of another class is cast, unless the socket takes `any`.
pub open spec fn coerced(raw: Option<ObjectView>, name: Seq<char>, parser: Option<TextParser>) -> Result<
    Option<ObjectView>,
    ObjectError,
> {
    match raw {
        None => Ok(None),
        Some(v) => if class_name_of(v) != name && name != "any"@ {
            match cast_view(v, parser) {
                Ok(o) => Ok(Some(o)),
                Err(e) => Err(e),
            }
        } else {
            Ok(Some(v))
        },
    }
}

/// `out` is `raw` passed through the sockets: see `coerced`.
pub open spec fn coerced_all(
    raw: Seq<Option<ObjectView>>,
    sockets: Seq<InputSocket>,
    out: Seq<Option<ObjectView>>,
) -> bool {
    &&& out.len() == if raw.len() < sockets.len() {
        raw.len()
    } else {
        sockets.len()
    }
    &&& forall|k: int|
        0 <= k < out.len() ==> Ok::<Option<ObjectView>, ObjectError>(#[trigger] out[k]) == coerced(
            raw[k],
            sockets[k].class.name@,
            sockets[k].class.parser,
        )
}

/// Passes each input value through its socket: see `coerced`. Values beyond the last
/// socket are dropped.
pub fn coerce_inputs(raw: &Vec<Option<Object>>, sockets: &Vec<InputSocket>) -> (r: Result<
    Vec<Option<Object>>,
    ObjectError,
>)
    ensures
        r is Ok <==> forall|k: int|
            0 <= k < raw@.len() && k < sockets@.len() ==> coerced(
                slot_view(#[trigger] raw@[k]),
                sockets@[k].class.name@,
                sockets@[k].class.parser,
            ) is Ok,
        r matches Ok(v) ==> {
            &&& v@.len() == if raw@.len() < sockets@.len() {
                raw@.len()
            } else {
                sockets@.len()
            }
            &&& forall|k: int|
                0 <= k < v@.len() ==> Ok::<Option<ObjectView>, ObjectError>(slot_view(#[trigger] v@[k])) == coerced(
                    slot_view(raw@[k]),
                    sockets@[k].class.name@,
                    sockets@[k].class.parser,
                )
        },
{
    let mut out: Vec<Option<Object>> = Vec::new();
    let mut i: usize = 0;
    while i < raw.len() && i < sockets.len()
        invariant
            i <= raw@.len(),
            i <= sockets@.len(),
            out@.len() == i,
            forall|k: int|
                0 <= k < i ==> Ok::<Option<ObjectView>, ObjectError>(slot_view(#[trigger] out@[k])) == coerced(
                    slot_view(raw@[k]),
                    sockets@[k].class.name@,
                    sockets@[k].class.parser,
                ),
        decreases raw@.len() - i,
    {
        match &raw[i] {
            None => out.push(None),
            Some(v) => {
                let socket_class = &sockets[i].class;
                let cls = v.class_name();
                if cls != socket_class.name && !text_is(&socket_class.name, "any") {
                    match v.cast_to(socket_class.parser) {
                        Ok(c) => out.push(Some(c)),
                        Err(e) => {
                            assert(coerced(
                                slot_view(raw@[i as int]),
                                sockets@[i as int].class.name@,
                                sockets@[i as int].class.parser,
                            ) is Err);
                            return Err(e);
                        },
                    }
                } else {
                    out.push(Some(v.copy()));
                }
            },
        }
        i = i + 1;
    }
    assert forall|k: int| 0 <= k < raw@.len() && k < sockets@.len() implies coerced(
        slot_view(#[trigger] raw@[k]),
        sockets@[k].class.name@,
        sockets@[k].class.parser,
    ) is Ok by {
        assert(Ok::<Option<ObjectView>, ObjectError>(slot_view(out@[k])) == coerced(
            slot_view(raw@[k]),
            sockets@[k].class.name@,
            sockets@[k].class.parser,
        ));
    }
    Ok(out)
}

/// The branch an `if` node takes: 1 when its first input is truthy, 0 when it is not.
pub fn if_branch(values: &Vec<Object>) -> (r: Result<usize, StepError>)
    ensures
        values@.len() == 0 ==> r == Err::<usize, StepError>(StepError::MissingInput),
        values@.len() > 0 ==> match truthy(values@[0].view()) {
            Some(b) => r == Ok::<usize, StepError>(if b {
                1
            } else {
                0
            }),
            None => r == Err::<usize, StepError>(StepError::Object(ObjectError::NotABool)),
        },
{
    if values.len() == 0 {
        return Err(StepError::MissingInput);
    }
    match values[0].as_bool() {
        Ok(true) => Ok(1),
        Ok(false) => Ok(0),
        Err(e) => Err(StepError::Object(e)),
    }
}

/// What a `bool` node outputs: its first input read as a boolean.
pub fn bool_output(values: &Vec<Object>) -> (r: Result<Object, StepError>)
    ensures
        values@.len() == 0 ==> r == Err::<Object, StepError>(StepError::MissingInput),
        values@.len() > 0 ==> match truthy(values@[0].view()) {
            Some(b) => r is Ok && r->Ok_0.view() == ObjectView::Bool(b),
            None => r == Err::<Object, StepError>(StepError::Object(ObjectError::NotABool)),
        },
{
    if values.len() == 0 {
        return Err(StepError::MissingInput);
    }
    match values[0].as_bool() {
        Ok(b) => Ok(Object::Bool(b)),
        Err(e) => Err(StepError::Object(e)),
    }
}

/// What a `number` node outputs: its first input read as a number.
pub fn number_output(values: &Vec<Object>) -> (r: Result<Object, StepError>)
    ensures
        values@.len() == 0 ==> r == Err::<Object, StepError>(StepError::MissingInput),
        values@.len() > 0 ==> match number_of(values@[0].view()) {
            Some(n) => r is Ok && r->Ok_0.view() == ObjectView::Number(n),
            None => r == Err::<Object, StepError>(StepError::Object(ObjectError::NotANumber)),
        },
{
    if values.len() == 0 {
        return Err(StepError::MissingInput);
    }
    match values[0].as_number() {
        Ok(n) => Ok(Object::Number(n)),
        Err(e) => Err(StepError::Object(e)),
    }
}

/// What a `string` node outputs: the text of its first input.
pub fn string_output(values: &Vec<Object>) -> (r: Result<Object, StepError>)
    ensures
        values@.len() == 0 ==> r == Err::<Object, StepError>(StepError::MissingInput),
        values@.len() > 0 ==> r is Ok && r->Ok_0.view() == ObjectView::Text(
            text_of(values@[0].view()),
        ),
{
    if values.len() == 0 {
        return Err(StepError::MissingInput);
    }
    Ok(Object::Text(values[0].as_text()))
}

/// What an array constructor outputs: the array of its inputs.
pub fn array_output(values: Vec<Object>) -> (r: Object)
    ensures
        r.view() == ObjectView::Array(values@.map_values(|o: Object| o.view())),
{
    let r = Object::Array(values);
    assert(r.view()->Array_0 =~= values@.map_values(|o: Object| o.view()));
    r
}

/// The node id on top of a stack, if the stack is not empty and its top is no implicit
/// end.
pub open spec fn top_frame(s: Seq<Option<AbsoluteNodeId>>) -> Option<AbsoluteNodeId> {
    if s.len() > 0 {
        s.last()
    } else {
        None
    }
}

/// `next` is the frame that follows node `id` along `branch`: the target of the branch
/// edge `(id, branch)` of its program, in that program; the implicit end node when the
/// program has no such edge.
pub open spec fn successor(
    d: LoadedProgramData,
    id: AbsoluteNodeId,
    branch: usize,
    next: Option<AbsoluteNodeId>,
) -> bool {
    &&& !d.has_program(full_key(id.0)) ==> next is None
    &&& forall|i: int|
        0 <= i < d.programs@.len() && full_key(#[trigger] d.programs@[i].0) == full_key(id.0)
            ==> {
            &&& (next is Some <==> has_edge(d.programs@[i].1.branch_edges@, id.1, branch))
            &&& next matches Some(a) ==> exists|e: int|
                0 <= e < d.programs@[i].1.branch_edges@.len() && (
                #[trigger] d.programs@[i].1.branch_edges@[e]).0.0 == id.1
                    && d.programs@[i].1.branch_edges@[e].0.1 == branch
                    && d.programs@[i].1.branch_edges@[e].1 == a.1
        }
    &&& next matches Some(a) ==> a.id_view().0 == id.id_view().0 && a.id_view().1
        == id.id_view().1
}

/// What a step of node `v`, stored at `id` on top of the stack, did: a print node wrote
/// the text of what it saw; an `if` node went on along the branch its first input's
/// truth picks; an end node handed what it saw to its caller's outputs.
pub open spec fn step_effect(before: Executor, after: Executor, id: AbsoluteNodeId, v: NodeView) -> bool {
    match v {
        NodeView::Print(ln, _) => exists|sk: Seq<InputSocket>, vals: Seq<ObjectView>|
            #[trigger] before.sees(sk, vals) && sockets_of(sk, v) && after.output@ == before.output@ + print_text(
                vals,
                ln,
            ),
        NodeView::If => exists|sk: Seq<InputSocket>, vals: Seq<ObjectView>|
            #[trigger] before.sees(sk, vals) && sockets_of(sk, v) && vals.len() > 0 && truthy(vals[0]) is Some
                && successor(
                after.loaded,
                id,
                if truthy(vals[0])->Some_0 {
                    1
                } else {
                    0
                },
                after.node_stack@.last(),
            ),
        NodeView::End(_) => {
            &&& exists|sk: Seq<InputSocket>, vals: Seq<ObjectView>|
                #[trigger] before.sees(sk, vals) && match top_frame(before.node_stack@.drop_last()) {
                    Some(caller) => data_written(before.loaded, after.loaded, caller, vals),
                    None => true,
                }
            &&& before.node_stack@.len() == 1 ==> after.node_stack@.len() == 0
            &&& (before.node_stack@.len() >= 2 && before.node_stack@.drop_last().last() is Some)
                ==> {
                &&& after.node_stack@.len() == before.node_stack@.len() - 1
                &&& after.node_stack@.drop_last() == before.node_stack@.drop_last().drop_last()
                &&& successor(
                    after.loaded,
                    before.node_stack@.drop_last().last()->Some_0,
                    0,
                    after.node_stack@.last(),
                )
            }
        },
        NodeView::Array(_) => exists|sk: Seq<InputSocket>, vals: Seq<ObjectView>|
            #[trigger] before.sees(sk, vals) && sockets_of(sk, v) && output_written(before, after, ObjectView::Array(vals)),
        NodeView::Bool => exists|sk: Seq<InputSocket>, vals: Seq<ObjectView>|
            #[trigger] before.sees(sk, vals) && sockets_of(sk, v) && vals.len() > 0 && output_written(
                before,
                after,
                ObjectView::Bool(truthy(vals[0])->Some_0),
            ),
        NodeView::Number => exists|sk: Seq<InputSocket>, vals: Seq<ObjectView>|
            #[trigger] before.sees(sk, vals) && sockets_of(sk, v) && vals.len() > 0 && output_written(
                before,
                after,
                ObjectView::Number(number_of(vals[0])->Some_0),
            ),
        NodeView::VariableGet => exists|sk: Seq<InputSocket>, vals: Seq<ObjectView>|
            #[trigger] before.sees(sk, vals) && sockets_of(sk, v) && vals.len() > 0 && outputs_set(
                before,
                after,
                match variable_value(before, text_of(vals[0])) {
                    Some(o) => seq![o],
                    None => Seq::<ObjectView>::empty(),
                },
            ),
        NodeView::VariableSet => exists|sk: Seq<InputSocket>, vals: Seq<ObjectView>|
            #[trigger] before.sees(sk, vals) && sockets_of(sk, v) && vals.len() >= 2
                && variable_value(after, text_of(vals[0])) == Some(vals[1]),
        NodeView::Text => exists|sk: Seq<InputSocket>, vals: Seq<ObjectView>|
            #[trigger] before.sees(sk, vals) && sockets_of(sk, v) && vals.len() > 0 && output_written(
                before,
                after,
                ObjectView::Text(text_of(vals[0])),
            ),
        _ => true,
    }
}

/// Two socket lists name the same classes, with the same parsers.
pub open spec fn same_sockets(a: Seq<InputSocket>, b: Seq<InputSocket>) -> bool {
    &&& a.len() == b.len()
    &&& forall|k: int|
        0 <= k < a.len() ==> (#[trigger] a[k]).class.name@ == b[k].class.name@ && a[k].class.parser
            == b[k].class.parser
}

/// `sk` names the input classes of a node `v`, each with its standard parser.
pub open spec fn sockets_of(sk: Seq<InputSocket>, v: NodeView) -> bool {
    &&& sk.len() == crate::node::input_names(v).len()
    &&& forall|k: int|
        0 <= k < sk.len() ==> (#[trigger] sk[k]).class.name@ == crate::node::input_names(v)[k]
            && sk[k].class.parser == crate::stdlib::parser_for(crate::node::input_names(v)[k])
}

/// A node whose inputs are plain classes: its sockets are its own.
pub open spec fn plain_node(v: NodeView) -> bool {
    &&& !(v is Fixed)
    &&& v is End ==> crate::node::input_names(v).len() == 0
}

pub proof fn lemma_plain_inputs(v: NodeView)
    requires
        plain_node(v),
    ensures
        crate::node::input_names(v).len() == 0 || crate::node::input_names(v)[0].len() < 17,
{
    reveal_strlit("any");
    reveal_strlit("bool");
    reveal_strlit("string");
    reveal_strlit("subroutine");
}

/// When a step of node `v`, seeing its inputs through `sk`, succeeds: its inputs are
/// ready, and the node finds in them what it needs.
pub open spec fn step_ok(before: Executor, v: NodeView, sk: Seq<InputSocket>) -> bool {
    &&& before.ready(sk)
    &&& forall|vals: Seq<ObjectView>| #[trigger] before.sees(sk, vals) ==> needs_met(v, vals)
}

/// The step of the node on top of `e` cannot succeed: the top names a node, and where
/// that node is a plain one, its inputs are not ready or lack what it needs.
pub open spec fn step_fails(e: Executor) -> bool {
    &&& e.node_stack@.len() > 0
    &&& e.node_stack@.last() is Some
    &&& forall|id: AbsoluteNodeId, v: NodeView, sk: Seq<InputSocket>|
        e.node_stack@.last() == Some(id) && #[trigger] stored(e.loaded, id, v) && plain_node(v)
            && #[trigger] sockets_of(sk, v) ==> !step_ok(e, v, sk)
}

/// `after` is `before` with the outputs `os` written for the node on top of the stack.
pub open spec fn outputs_set(before: Executor, after: Executor, os: Seq<ObjectView>) -> bool {
    match top_frame(before.node_stack@) {
        Some(id) => data_written(before.loaded, after.loaded, id, os),
        None => after.loaded == before.loaded,
    }
}

/// `after` is `before` with the single output `o` written for the node on top of the
/// stack.
pub open spec fn output_written(before: Executor, after: Executor, o: ObjectView) -> bool {
    outputs_set(before, after, seq![o])
}

/// What the variable `name` holds in `e`, if it is set.
pub open spec fn variable_value(e: Executor, name: Seq<char>) -> Option<ObjectView> {
    if exists|i: int| 0 <= i < e.variables@.len() && (#[trigger] e.variables@[i]).0@ == name {
        Some(
            e.variables@[choose|i: int|
                0 <= i < e.variables@.len() && (#[trigger] e.variables@[i]).0@ == name].1.view(),
        )
    } else {
        None
    }
}

/// The values a node sees hold what it needs.
pub open spec fn needs_met(v: NodeView, vals: Seq<ObjectView>) -> bool {
    match v {
        NodeView::If => vals.len() > 0 && truthy(vals[0]) is Some,
        NodeView::Bool => vals.len() > 0 && truthy(vals[0]) is Some,
        NodeView::Number => vals.len() > 0 && number_of(vals[0]) is Some,
        NodeView::Text => vals.len() > 0,
        NodeView::VariableGet => vals.len() > 0,
        NodeView::VariableSet => vals.len() >= 2,
        NodeView::Supplied => vals.len() > 0 && vals[0] is Subroutine,
        _ => true,
    }
}

/// A node that, once run, moves on along branch 0 in its own frame.
pub open spec fn moves_on(v: NodeView) -> bool {
    !(v is If || v is End || v is Fixed || v is Supplied)
}

/// `b` is `a` after one successful step.
pub open spec fn stepped(a: Executor, b: Executor) -> bool {
    &&& a.node_stack@.len() > 0
    &&& b.wf()
    &&& b.auto_execution == a.auto_execution
    &&& b.stop_point == a.stop_point
    &&& same_nodes(a.loaded, b.loaded)
    &&& a.node_stack@.last() is None ==> b.output == a.output && b.node_stack@.len()
        < a.node_stack@.len()
    &&& forall|id: AbsoluteNodeId, v: NodeView|
        a.node_stack@.last() == Some(id) && #[trigger] stored(a.loaded, id, v) ==> {
            &&& step_effect(a, b, id, v)
            &&& !(v is Print) ==> b.output == a.output
            &&& moves_on(v) ==> b.node_stack@.len() == a.node_stack@.len()
                && b.node_stack@.drop_last() == a.node_stack@.drop_last() && successor(
                b.loaded,
                id,
                0,
                b.node_stack@.last(),
            )
        }
}

/// `b` is `a` after one successful step, with the loop's own flags and count updated.
pub open spec fn advanced(a: Executor, b: Executor) -> bool {
    exists|m: Executor|
        #[trigger] stepped(a, m) && b.node_stack == m.node_stack && b.loaded == m.loaded
            && b.output == m.output && b.variables == m.variables && b.stop_point == m.stop_point
}

/// `tr` is a run: each state follows from the one before by a step.
pub open spec fn is_run(tr: Seq<Executor>) -> bool {
    &&& tr.len() >= 1
    &&& forall|i: int| 0 <= i < tr.len() - 1 ==> #[trigger] advanced(tr[i], tr[i + 1])
}

/// `b` is `a` with the start node of entry `main` of `__main__` pushed and automatic
/// execution set to `auto`.
pub open spec fn started(a: Executor, b: Executor, auto: bool) -> bool {
    &&& b.node_stack@.len() == a.node_stack@.len() + 1
    &&& b.node_stack@.drop_last() == a.node_stack@
    &&& b.node_stack@.last() matches Some(s) && s.id_view().0 == Seq::<Seq<char>>::empty()
        && s.id_view().1 == "__main__"@ && main_entry(a.loaded, s.1)
    &&& b.loaded == a.loaded
    &&& b.output == a.output
    &&& b.variables == a.variables
    &&& b.stop_point == a.stop_point
    &&& b.auto_execution == auto
}

/// `a` and `b` hold the same stack, programs, output and variables.
pub open spec fn same_run_state(a: Executor, b: Executor) -> bool {
    &&& a.node_stack == b.node_stack
    &&& a.loaded == b.loaded
    &&& a.output == b.output
    &&& a.variables == b.variables
}

impl Executor {
    /// Readiness and what a node sees depend on the sockets' classes and parsers alone.
    pub proof fn lemma_same_sockets(&self, a: Seq<InputSocket>, b: Seq<InputSocket>)
        requires
            same_sockets(a, b),
        ensures
            self.ready(a) == self.ready(b),
            forall|vals: Seq<ObjectView>| #[trigger] self.sees(a, vals) == self.sees(b, vals),
    {
        assert forall|raw: Seq<Option<ObjectView>>| #[trigger] self.raw_inputs(a, raw)
            == self.raw_inputs(b, raw) by {
            match top_frame(self.node_stack@) {
                None => {},
                Some(id) => {
                    assert forall|i: int|
                        0 <= i < self.loaded.programs@.len() implies #[trigger] gathered(
                        self.loaded.programs@[i].1,
                        id.1,
                        a,
                        raw,
                    ) == gathered(self.loaded.programs@[i].1, id.1, b, raw) by {
                        lemma_gathered_same_sockets(self.loaded.programs@[i].1, id.1, a, b, raw);
                    }
                },
            }
        }
        match top_frame(self.node_stack@) {
            None => {},
            Some(id) => {
                if self.loaded.programs@.len() > 0 {
                    lemma_gathered_same_sockets(
                        self.loaded.programs@[0].1,
                        id.1,
                        a,
                        b,
                        Seq::<Option<ObjectView>>::empty(),
                    );
                }
                assert(self.consts_ok(a) == self.consts_ok(b));
            },
        }
        assert forall|raw: Seq<Option<ObjectView>>, k: int|
            0 <= k < a.len() implies #[trigger] coerced(raw[k], a[k].class.name@, a[k].class.parser)
            == coerced(raw[k], b[k].class.name@, b[k].class.parser) by {
            assert(a[k].class.name@ == b[k].class.name@);
        }
        assert(self.consts_ok(a) == self.consts_ok(b));
        assert forall|raw: Seq<Option<ObjectView>>| #[trigger] self.raw_inputs(a, raw) implies (
        forall|k: int|
            0 <= k < raw.len() && k < a.len() ==> raw[k] is Some && coerced(
                raw[k],
                a[k].class.name@,
                a[k].class.parser,
            ) is Ok) == (forall|k: int|
            0 <= k < raw.len() && k < b.len() ==> raw[k] is Some && coerced(
                raw[k],
                b[k].class.name@,
                b[k].class.parser,
            ) is Ok) by {
            assert forall|k: int| 0 <= k < a.len() implies coerced(
                raw[k],
                a[k].class.name@,
                a[k].class.parser,
            ) == coerced(raw[k], b[k].class.name@, b[k].class.parser) by {
                assert(a[k].class.name@ == b[k].class.name@);
            }
        }
        if self.ready(a) {
            assert forall|raw: Seq<Option<ObjectView>>| #[trigger] self.raw_inputs(b, raw) implies forall|
                k: int,
            |
                0 <= k < raw.len() && k < b.len() ==> raw[k] is Some && coerced(
                    raw[k],
                    b[k].class.name@,
                    b[k].class.parser,
                ) is Ok by {
                assert(self.raw_inputs(a, raw));
            }
        }
        if self.ready(b) {
            assert forall|raw: Seq<Option<ObjectView>>| #[trigger] self.raw_inputs(a, raw) implies forall|
                k: int,
            |
                0 <= k < raw.len() && k < a.len() ==> raw[k] is Some && coerced(
                    raw[k],
                    a[k].class.name@,
                    a[k].class.parser,
                ) is Ok by {
                assert(self.raw_inputs(b, raw));
            }
        }
        assert(self.ready(a) == self.ready(b));
        assert forall|vals: Seq<ObjectView>| #[trigger] self.sees(a, vals) == self.sees(b, vals) by {
            let vs = vals.map_values(|v: ObjectView| Some(v));
            assert forall|raw: Seq<Option<ObjectView>>| #[trigger] coerced_all(raw, a, vs)
                == coerced_all(raw, b, vs) by {}
            if self.sees(a, vals) {
                let raw = choose|raw: Seq<Option<ObjectView>>|
                    self.raw_inputs(a, raw) && coerced_all(raw, a, vs);
                assert(self.raw_inputs(b, raw) && coerced_all(raw, b, vs));
            }
            if self.sees(b, vals) {
                let raw = choose|raw: Seq<Option<ObjectView>>|
                    self.raw_inputs(b, raw) && coerced_all(raw, b, vs);
                assert(self.raw_inputs(a, raw) && coerced_all(raw, a, vs));
            }
        }
    }

    /// `raw` is what the node on top of the stack gathers from its program's store.
    pub open spec fn raw_inputs(
        &self,
        sockets: Seq<InputSocket>,
        raw: Seq<Option<ObjectView>>,
    ) -> bool {
        match top_frame(self.node_stack@) {
            None => raw.len() == 0,
            Some(id) => if !self.loaded.has_program(full_key(id.0)) {
                raw.len() == 0
            } else {
                forall|i: int|
                    0 <= i < self.loaded.programs@.len() && full_key(
                        #[trigger] self.loaded.programs@[i].0,
                    ) == full_key(id.0) ==> gathered(self.loaded.programs@[i].1, id.1, sockets, raw)
            },
        }
    }

    /// Every constant input of the node on top of the stack parses.
    pub open spec fn consts_ok(&self, sockets: Seq<InputSocket>) -> bool {
        match top_frame(self.node_stack@) {
            None => true,
            Some(id) => forall|i: int, j: int|
                0 <= i < self.loaded.programs@.len() && full_key(self.loaded.programs@[i].0)
                    == full_key(id.0) && 0 <= j < self.loaded.programs@[i].1.const_inputs@.len()
                    ==> const_ok(
                    #[trigger] self.loaded.programs@[i].1.const_inputs@[j],
                    id.1,
                    sockets,
                ),
        }
    }

    proof fn lemma_raw_unique(
        &self,
        sockets: Seq<InputSocket>,
        a: Seq<Option<ObjectView>>,
        b: Seq<Option<ObjectView>>,
    )
        requires
            self.raw_inputs(sockets, a),
            self.raw_inputs(sockets, b),
        ensures
            a == b,
    {
        match top_frame(self.node_stack@) {
            None => {
                assert(a =~= b);
            },
            Some(id) => {
                if !self.loaded.has_program(full_key(id.0)) {
                    assert(a =~= b);
                } else {
                    let i = choose|i: int|
                        0 <= i < self.loaded.programs@.len() && full_key(
                            #[trigger] self.loaded.programs@[i].0,
                        ) == full_key(id.0);
                    lemma_gathered_unique(self.loaded.programs@[i].1, id.1, sockets, a, b);
                }
            },
        }
    }

    /// `vals` is what the node on top of the stack sees through `sockets`, every input
    /// present.
    pub open spec fn sees(&self, sockets: Seq<InputSocket>, vals: Seq<ObjectView>) -> bool {
        exists|raw: Seq<Option<ObjectView>>|
            self.raw_inputs(sockets, raw) && coerced_all(
                raw,
                sockets,
                vals.map_values(|v: ObjectView| Some(v)),
            )
    }

    /// Every input the node on top of the stack gathers through `sockets` is present, its
    /// constants parse, and each value passes through its socket.
    pub open spec fn ready(&self, sockets: Seq<InputSocket>) -> bool {
        &&& self.consts_ok(sockets)
        &&& forall|raw: Seq<Option<ObjectView>>|
            #[trigger] self.raw_inputs(sockets, raw) ==> forall|k: int|
                0 <= k < raw.len() && k < sockets.len() ==> raw[k] is Some && coerced(
                    raw[k],
                    sockets[k].class.name@,
                    sockets[k].class.parser,
                ) is Ok
    }

    pub open spec fn wf(&self) -> bool {
        &&& self.loaded.wf()
        &&& forall|a: int, b: int|
            0 <= a < b < self.variables@.len() ==> (#[trigger] self.variables@[a]).0@ != (
            #[trigger] self.variables@[b]).0@
    }

    pub open spec fn stack(&self) -> Seq<Option<AbsIdView>> {
        stack_view(self.node_stack@)
    }

    pub fn new() -> (r: Executor)
        ensures
            r.wf(),
            r.node_stack@.len() == 0,
            !r.auto_execution,
            r.stop_point is None,
            r.variables@.len() == 0,
            r.output@.len() == 0,
            r.loaded.programs@.len() == 0,
            r.loaded.modules.items@.len() == 0,
    {
        Self::new_with_loaded(LoadedProgramData::new())
    }

    /// An executor over programs and classes that are already loaded.
    pub fn new_with_loaded(loaded: LoadedProgramData) -> (r: Executor)
        requires
            loaded.wf(),
        ensures
            r.wf(),
            r.node_stack@.len() == 0,
            r.loaded == loaded,
            !r.auto_execution,
            r.stop_point is None,
            r.variables@.len() == 0,
            r.output@.len() == 0,
    {
        Executor {
            node_stack: Vec::new(),
            loaded,
            auto_execution: false,
            stop_point: None,
            variables: Vec::new(),
            output: String::new(),
            steps: Ghost(0),
        }
    }

    pub fn load_program(&mut self, program: &Program, path: &ModulePath) -> (r: Result<
        (),
        LoadError,
    >)
        requires
            old(self).wf(),
        ensures
            final(self).wf(),
            r is Ok ==> final(self).loaded.has_program(full_key(*path)),
            old(self).loaded.has_program(full_key(*path)) <==> r == Err::<(), LoadError>(
                LoadError::DuplicateProgram,
            ),
            r is Ok ==> forall|k: int|
                0 <= k < final(self).loaded.programs@.len() && full_key(
                    #[trigger] final(self).loaded.programs@[k].0,
                ) == full_key(*path) ==> loaded_from(
                    final(self).loaded.programs@[k].1,
                    program,
                    old(self).loaded.modules,
                ),
    {
        self.loaded.load_program(path, program)
    }

    pub fn load_programs(&mut self, programs: &ProgramCollection) -> (r: Result<(), LoadError>)
        requires
            old(self).wf(),
        ensures
            final(self).wf(),
            r matches Err(e) ==> exists|i: int|
                0 <= i < programs.programs@.len() && crate::program::load_fails(
                    final(self).loaded,
                    (#[trigger] programs.programs@[i]).0,
                    &programs.programs@[i].1,
                    e,
                ),
            r is Ok ==> forall|i: int|
                0 <= i < programs.programs@.len() ==> final(self).loaded.has_program(
                    full_key(#[trigger] programs.programs@[i].0),
                ),
            r is Ok ==> forall|i: int, k: int|
                0 <= i < programs.programs@.len() && 0 <= k < final(self).loaded.programs@.len()
                    && full_key(#[trigger] final(self).loaded.programs@[k].0) == full_key(
                    (#[trigger] programs.programs@[i]).0,
                ) ==> exists|m: crate::module::Module|
                    loaded_from(final(self).loaded.programs@[k].1, &programs.programs@[i].1, m),
            r is Ok ==> forall|i: int, c: int|
                0 <= i < programs.programs@.len() && 0 <= c < (
                #[trigger] programs.programs@[i]).1.classes@.len() ==> final(self).loaded.modules.holds(
                    crate::program::class_key(
                        programs.programs@[i].0,
                        (#[trigger] programs.programs@[i].1.classes@[c]).name@,
                    ),
                ),
    {
        self.loaded.load_programs(programs)
    }

    pub fn load_plugin<P: Plugin>(&mut self, plugin: &P) -> (r: Result<(), LoadError>)
        requires
            old(self).wf(),
        ensures
            final(self).wf(),
            final(self).loaded.programs == old(self).loaded.programs,
            r is Ok ==> forall|i: int|
                0 <= i < plugin.class_keys().len() ==> final(self).loaded.modules.occupied(
                    #[trigger] plugin.class_keys()[i],
                ),
            r is Ok ==> forall|i: int|
                0 <= i < plugin.class_keys().len() && #[trigger] crate::program::fresh_key(
                    old(self).loaded.modules,
                    plugin.class_keys(),
                    i,
                ) ==> exists|j: int|
                    0 <= j < final(self).loaded.modules.items@.len()
                        && final(self).loaded.modules.key(j) == plugin.class_keys()[i]
                        && final(self).loaded.modules.items@[j].1.name@ == plugin.class_views()[i].0
                        && final(self).loaded.modules.items@[j].1.nodes@.map_values(
                        |n: Node| n.view(),
                    ) == plugin.class_views()[i].1 && final(self).loaded.modules.items@[j].1.obj_from_str
                        == plugin.class_views()[i].2,
            r is Err ==> r == Err::<(), LoadError>(LoadError::NonModuleSegment) && exists|i: int|
                0 <= i < plugin.class_keys().len() && final(self).loaded.modules.blocks(
                    (#[trigger] plugin.class_keys()[i]).drop_last(),
                ),
    {
        let classes = plugin.classes();
        let ghost cs = classes@;
        let r = self.loaded.load_plugin(classes);
        proof {
            assert(crate::program::keys_of(cs) =~= plugin.class_keys());
            assert forall|i: int| 0 <= i < cs.len() implies (#[trigger] cs[i]).0.segs()
                == full_key(cs[i].0).drop_last() by {
                assert(full_key(cs[i].0).drop_last() =~= cs[i].0.segs());
            }
            if r is Ok {
                assert forall|i: int| 0 <= i < plugin.class_keys().len() implies self.loaded.modules.occupied(
                    #[trigger] plugin.class_keys()[i],
                ) by {
                    assert(full_key(cs[i].0) == plugin.class_keys()[i]);
                }
            } else {
                let i = choose|i: int|
                    0 <= i < cs.len() && self.loaded.modules.blocks((#[trigger] cs[i]).0.segs());
                assert(full_key(cs[i].0) == plugin.class_keys()[i]);
            }
        }
        r
    }

    /// The node scheduled to execute next, if it is not the implicit end node.
    pub fn current_node(&self) -> (r: Option<&AbsoluteNodeId>)
        ensures
            self.node_stack@.len() == 0 ==> r is None,
            self.node_stack@.len() > 0 ==> match r {
                Some(a) => self.node_stack@.last() == Some(*a),
                None => self.node_stack@.last() is None,
            },
    {
        let n = self.node_stack.len();
        if n == 0 {
            None
        } else {
            match &self.node_stack[n - 1] {
                Some(a) => Some(a),
                None => None,
            }
        }
    }

    /// Writes values into the outputs of the node at the top of the stack.
    pub fn set_outputs(&mut self, values: &Vec<Object>)
        requires
            old(self).wf(),
        ensures
            final(self).wf(),
            match top_frame(old(self).node_stack@) {
                Some(id) => data_written(
                    old(self).loaded,
                    final(self).loaded,
                    id,
                    values@.map_values(|o: Object| o.view()),
                ),
                None => final(self).loaded == old(self).loaded,
            },
            same_nodes(old(self).loaded, final(self).loaded),
            final(self).node_stack == old(self).node_stack,
            final(self).auto_execution == old(self).auto_execution,
            final(self).stop_point == old(self).stop_point,
            final(self).variables == old(self).variables,
            final(self).output == old(self).output,
    {
        let n = self.node_stack.len();
        if n > 0 {
            match &self.node_stack[n - 1] {
                Some(id) => {
                    let id = id.copy();
                    self.loaded.set_outputs(&id, values);
                    proof {
                        lemma_written_same_nodes(
                            old(self).loaded,
                            self.loaded,
                            id,
                            values@.map_values(|o: Object| o.view()),
                        );
                    }
                },
                None => {},
            }
        }
    }

    /// Redirects execution to a subroutine: its entry goes on top of the stack, and the
    /// arguments become the entry's outputs.
    pub fn execute_subroutine(&mut self, node_id: AbsoluteNodeId, input_values: Vec<Object>)
        requires
            old(self).wf(),
        ensures
            final(self).wf(),
            final(self).node_stack@.len() == old(self).node_stack@.len() + 1,
            final(self).stack() == old(self).stack().push(Some(node_id.id_view())),
            final(self).node_stack@.last() is Some,
            final(self).output == old(self).output,
            same_nodes(old(self).loaded, final(self).loaded),
            data_written(
                old(self).loaded,
                final(self).loaded,
                node_id,
                input_values@.map_values(|o: Object| o.view()),
            ),
            final(self).auto_execution == old(self).auto_execution,
            final(self).stop_point == old(self).stop_point,
    {
        let ghost v = node_id.id_view();
        let ghost target = node_id;
        self.node_stack.push(Some(node_id));
        assert(top_frame(self.node_stack@) == Some(target));
        assert(self.node_stack@.last() is Some);
        assert(self.stack() =~= old(self).stack().push(Some(v)));
        self.set_outputs(&input_values);
    }

    /// Returns from a subroutine: its frame leaves the stack, and the return values
    /// become the outputs of the caller, now on top.
    pub fn finish_subroutine(&mut self, return_values: Vec<Object>)
        requires
            old(self).wf(),
        ensures
            final(self).wf(),
            old(self).node_stack@.len() == 0 ==> final(self).node_stack@.len() == 0
                && final(self).loaded == old(self).loaded,
            same_nodes(old(self).loaded, final(self).loaded),
            final(self).output == old(self).output,
            old(self).node_stack@.len() > 0 ==> final(self).node_stack@.len() == old(
                self,
            ).node_stack@.len() - 1 && final(self).stack() == old(self).stack().drop_last()
                && final(self).node_stack@ == old(self).node_stack@.drop_last(),
            old(self).node_stack@.len() > 0 ==> match top_frame(old(self).node_stack@.drop_last()) {
                Some(caller) => data_written(
                    old(self).loaded,
                    final(self).loaded,
                    caller,
                    return_values@.map_values(|o: Object| o.view()),
                ),
                None => final(self).loaded == old(self).loaded,
            },
            final(self).auto_execution == old(self).auto_execution,
            final(self).stop_point == old(self).stop_point,
    {
        if self.node_stack.len() == 0 {
            return;
        }
        self.node_stack.pop();
        assert(self.stack() =~= old(self).stack().drop_last());
        self.set_outputs(&return_values);
    }

    /// The inputs of the node on top of the stack, each cast to the class its socket
    /// expects unless that class is `any` or already the value's class.
    pub fn get_inputs(&self, sockets: &Vec<InputSocket>) -> (r: Result<
        Vec<Option<Object>>,
        StepError,
    >)
        requires
            self.wf(),
        ensures
            r is Ok <==> self.consts_ok(sockets@) && forall|raw: Seq<Option<ObjectView>>|
                #[trigger] self.raw_inputs(sockets@, raw) ==> forall|k: int|
                    0 <= k < raw.len() && k < sockets@.len() ==> coerced(
                        raw[k],
                        sockets@[k].class.name@,
                        sockets@[k].class.parser,
                    ) is Ok,
            r matches Ok(v) ==> exists|raw: Seq<Option<ObjectView>>|
                self.raw_inputs(sockets@, raw) && coerced_all(
                    raw,
                    sockets@,
                    v@.map_values(|o: Option<Object>| slot_view(o)),
                ),
            r matches Ok(v) ==> v@.len() <= sockets@.len(),
            r matches Err(e) ==> e is Object,
    {
        let raw = match self.current_node() {
            None => Vec::new(),
            Some(id) => match self.loaded.get_inputs(id, sockets) {
                Ok(v) => v,
                Err(e) => {
                    proof {
                        let i = choose|i: int|
                            0 <= i < self.loaded.programs@.len() && full_key(
                                #[trigger] self.loaded.programs@[i].0,
                            ) == full_key(id.0);
                        let p = self.loaded.programs@[i].1;
                        let j = choose|j: int|
                            0 <= j < p.const_inputs@.len() && !const_ok(
                                #[trigger] p.const_inputs@[j],
                                id.1,
                                sockets@,
                            );
                        assert(!const_ok(self.loaded.programs@[i].1.const_inputs@[j], id.1, sockets@));
                    }
                    return Err(StepError::Object(e));
                },
            },
        };
        let ghost rv = raw@.map_values(|o: Option<Object>| slot_view(o));
        assert(self.raw_inputs(sockets@, rv));
        assert(self.consts_ok(sockets@));
        proof {
            assert forall|raw2: Seq<Option<ObjectView>>| #[trigger]
                self.raw_inputs(sockets@, raw2) implies raw2 == rv by {
                self.lemma_raw_unique(sockets@, raw2, rv);
            }
            assert forall|k: int| 0 <= k < rv.len() implies #[trigger] rv[k] == slot_view(
                raw@[k],
            ) by {}
        }
        match coerce_inputs(&raw, sockets) {
            Ok(v) => {
                proof {
                    let vv = v@.map_values(|o: Option<Object>| slot_view(o));
                    assert forall|k: int| 0 <= k < vv.len() implies Ok::<
                        Option<ObjectView>,
                        ObjectError,
                    >(#[trigger] vv[k]) == coerced(
                        rv[k],
                        sockets@[k].class.name@,
                        sockets@[k].class.parser,
                    ) by {
                        assert(vv[k] == slot_view(v@[k]));
                        assert(rv[k] == slot_view(raw@[k]));
                    }
                    assert(coerced_all(rv, sockets@, vv));
                    assert forall|raw2: Seq<Option<ObjectView>>| #[trigger]
                        self.raw_inputs(sockets@, raw2) implies forall|k: int|
                        0 <= k < raw2.len() && k < sockets@.len() ==> coerced(
                            raw2[k],
                            sockets@[k].class.name@,
                            sockets@[k].class.parser,
                        ) is Ok by {
                        self.lemma_raw_unique(sockets@, raw2, rv);
                        assert forall|k: int| 0 <= k < raw2.len() && k < sockets@.len() implies coerced(
                            raw2[k],
                            sockets@[k].class.name@,
                            sockets@[k].class.parser,
                        ) is Ok by {
                            assert(raw2[k] == slot_view(raw@[k]));
                        }
                    }
                }
                Ok(v)
            },
            Err(e) => {
                proof {
                    let k = choose|k: int|
                        0 <= k < raw@.len() && k < sockets@.len() && !(coerced(
                            slot_view(#[trigger] raw@[k]),
                            sockets@[k].class.name@,
                            sockets@[k].class.parser,
                        ) is Ok);
                    assert(rv[k] == slot_view(raw@[k]));
                    assert(!(coerced(rv[k], sockets@[k].class.name@, sockets@[k].class.parser) is Ok));
                    assert(self.raw_inputs(sockets@, rv));
                }
                Err(StepError::Object(e))
            },
        }
    }

    /// Sets a variable, replacing its earlier value.
    pub fn set_variable(&mut self, name: &String, val: Object)
        requires
            old(self).wf(),
        ensures
            final(self).wf(),
            final(self).node_stack == old(self).node_stack,
            final(self).loaded == old(self).loaded,
            final(self).auto_execution == old(self).auto_execution,
            final(self).stop_point == old(self).stop_point,
            final(self).output == old(self).output,
            exists|i: int|
                0 <= i < final(self).variables@.len() && (#[trigger] final(self).variables@[i]).0@
                    == name@ && final(self).variables@[i].1 == val,
            forall|i: int|
                0 <= i < old(self).variables@.len() && (#[trigger] old(self).variables@[i]).0@
                    != name@ ==> final(self).variables@[i] == old(self).variables@[i],
            final(self).variables@.len() >= old(self).variables@.len(),
    {
        let mut i: usize = 0;
        while i < self.variables.len()
            invariant
                i <= self.variables@.len(),
                self.node_stack == old(self).node_stack,
                self.loaded == old(self).loaded,
                self.auto_execution == old(self).auto_execution,
                self.stop_point == old(self).stop_point,
                self.output == old(self).output,
                self.variables == old(self).variables,
                self.wf(),
                forall|j: int| 0 <= j < i ==> (#[trigger] self.variables@[j]).0@ != name@,
            decreases self.variables@.len() - i,
        {
            if self.variables[i].0 == *name {
                let ghost before = self.variables@;
                self.variables.set(i, (name.clone(), val));
                assert(self.variables@[i as int].0@ == name@);
                assert forall|a: int, b: int|
                    0 <= a < b < self.variables@.len() implies (#[trigger] self.variables@[a]).0@
                    != (#[trigger] self.variables@[b]).0@ by {
                    assert(self.variables@[a].0@ == before[a].0@);
                    assert(self.variables@[b].0@ == before[b].0@);
                }
                return;
            }
            i = i + 1;
        }
        let ghost before = self.variables@;
        self.variables.push((name.clone(), val));
        assert(self.variables@[self.variables@.len() - 1].0@ == name@);
        assert forall|a: int, b: int|
            0 <= a < b < self.variables@.len() implies (#[trigger] self.variables@[a]).0@ != (
            #[trigger] self.variables@[b]).0@ by {
            if b < before.len() {
                assert(self.variables@[a] == before[a]);
                assert(self.variables@[b] == before[b]);
            } else {
                assert(self.variables@[a] == before[a]);
            }
        }
    }

    /// A copy of the value of a variable, if it is set.
    pub fn get_variable(&self, name: &String) -> (r: Option<Object>)
        ensures
            r is Some <==> exists|i: int|
                0 <= i < self.variables@.len() && (#[trigger] self.variables@[i]).0@ == name@,
            r matches Some(o) ==> exists|i: int|
                0 <= i < self.variables@.len() && (#[trigger] self.variables@[i]).0@ == name@
                    && o.view() == self.variables@[i].1.view(),
    {
        let mut i: usize = 0;
        while i < self.variables.len()
            invariant
                i <= self.variables@.len(),
                forall|j: int| 0 <= j < i ==> (#[trigger] self.variables@[j]).0@ != name@,
            decreases self.variables@.len() - i,
        {
            if self.variables[i].0 == *name {
                return Some(self.variables[i].1.copy());
            }
            i = i + 1;
        }
        None
    }

    /// Pops the current frame and pushes its successor along `branch`: the node that the
    /// branch edge names, or the implicit end node when there is no such edge.
    pub fn advance(&mut self, branch: usize)
        requires
            old(self).wf(),
        ensures
            final(self).wf(),
            final(self).loaded == old(self).loaded,
            final(self).output == old(self).output,
            final(self).variables == old(self).variables,
            final(self).auto_execution == old(self).auto_execution,
            final(self).stop_point == old(self).stop_point,
            final(self).node_stack@.len() <= old(self).node_stack@.len(),
            old(self).node_stack@.len() == 0 ==> final(self).node_stack@.len() == 0,
            old(self).node_stack@.len() > 0 && old(self).node_stack@.last() is None
                ==> final(self).stack() == old(self).stack().drop_last(),
            old(self).node_stack@.len() > 0 && old(self).node_stack@.last() is Some ==> {
                &&& final(self).node_stack@.len() == old(self).node_stack@.len()
                &&& final(self).stack().drop_last() == old(self).stack().drop_last()
                &&& final(self).node_stack@.drop_last() == old(self).node_stack@.drop_last()
                &&& successor(
                    old(self).loaded,
                    old(self).node_stack@.last()->Some_0,
                    branch,
                    final(self).node_stack@.last(),
                )
            },
    {
        match self.node_stack.pop() {
            None => {},
            Some(None) => {
                assert(self.stack() =~= old(self).stack().drop_last());
            },
            Some(Some(id)) => {
                let next = self.loaded.get_next_node(&id, branch);
                let ghost mid = self.stack();
                self.node_stack.push(next);
                assert(mid =~= old(self).stack().drop_last());
                assert(self.stack().drop_last() =~= mid);
            },
        }
    }

    /// The input sockets a node presents: those of the node, except that a first socket
    /// of the class `subroutine_input@<id>` stands for the outputs of node `<id>`.
    fn effective_inputs(&self, node: &Node) -> (r: Result<Vec<InputSocket>, StepError>)
        requires
            self.wf(),
        ensures
            r is Err ==> r == Err::<Vec<InputSocket>, StepError>(StepError::UnknownNode),
            (crate::node::input_names(node.view()).len() == 0 || crate::node::input_names(
                node.view(),
            )[0].len() < 17) ==> (r matches Ok(sk) && sockets_of(sk@, node.view())),
    {
        let sockets = node.inputs();
        if sockets.len() == 0 {
            return Ok(sockets);
        }
        let v = chars_of(sockets[0].class.name.as_str());
        proof {
            reveal_strlit("subroutine_input@");
        }
        if !has_prefix(&v, 0, v.len(), "subroutine_input@") {
            return Ok(sockets);
        }
        proof {
            reveal_strlit("subroutine_input@");
        }
        let rest = string_of_range(&v, 17, v.len());
        let id = match AbsoluteNodeId::parse(rest.as_str()) {
            Ok(id) => id,
            Err(_) => {
                return Err(StepError::UnknownNode);
            },
        };
        match self.loaded.get_node(&id) {
            None => Err(StepError::UnknownNode),
            Some(target) => {
                let outs = target.outputs();
                let mut ins: Vec<InputSocket> = Vec::new();
                let mut i: usize = 0;
                while i < outs.len()
                    invariant
                        i <= outs@.len(),
                        ins@.len() == i,
                    decreases outs@.len() - i,
                {
                    ins.push(InputSocket { class: outs[i].class.copy() });
                    i = i + 1;
                }
                Ok(ins)
            },
        }
    }

    /// Inputs that arrived all present are what the node sees.
    proof fn lemma_sees(
        &self,
        sockets: Seq<InputSocket>,
        got: Seq<Option<ObjectView>>,
        ins: Seq<Object>,
    )
        requires
            exists|raw: Seq<Option<ObjectView>>|
                self.raw_inputs(sockets, raw) && coerced_all(raw, sockets, got),
            ins.len() == got.len(),
            forall|i: int| 0 <= i < ins.len() ==> got[i] == Some(#[trigger] ins[i].view()),
        ensures
            self.sees(sockets, ins.map_values(|o: Object| o.view())),
    {
        let vals = ins.map_values(|o: Object| o.view());
        assert(vals.map_values(|v: ObjectView| Some(v)) =~= got);
    }

    /// What a node sees is determined by the executor's state.
    proof fn lemma_sees_unique(
        &self,
        sockets: Seq<InputSocket>,
        a: Seq<ObjectView>,
        b: Seq<ObjectView>,
    )
        requires
            self.sees(sockets, a),
            self.sees(sockets, b),
        ensures
            a == b,
    {
        let ra = choose|raw: Seq<Option<ObjectView>>|
            self.raw_inputs(sockets, raw) && coerced_all(
                raw,
                sockets,
                a.map_values(|v: ObjectView| Some(v)),
            );
        let rb = choose|raw: Seq<Option<ObjectView>>|
            self.raw_inputs(sockets, raw) && coerced_all(
                raw,
                sockets,
                b.map_values(|v: ObjectView| Some(v)),
            );
        self.lemma_raw_unique(sockets, ra, rb);
        let sa = a.map_values(|v: ObjectView| Some(v));
        let sb = b.map_values(|v: ObjectView| Some(v));
        assert forall|k: int| 0 <= k < a.len() implies a[k] == b[k] by {
            assert(Ok::<Option<ObjectView>, ObjectError>(sa[k]) == coerced(
                ra[k],
                sockets[k].class.name@,
                sockets[k].class.parser,
            ));
            assert(Ok::<Option<ObjectView>, ObjectError>(sb[k]) == coerced(
                rb[k],
                sockets[k].class.name@,
                sockets[k].class.parser,
            ));
        }
        assert(a =~= b);
    }

    /// The inputs of the node on top of the stack, every one present.
    pub fn gather(&self, sockets: &Vec<InputSocket>) -> (r: Result<Vec<Object>, StepError>)
        requires
            self.wf(),
        ensures
            r is Ok <==> self.ready(sockets@),
            r matches Ok(v) ==> self.sees(sockets@, v@.map_values(|o: Object| o.view())),
            r matches Err(e) ==> e is Object || e == StepError::MissingInput,
    {
        let got = self.get_inputs(sockets)?;
        let ghost gv = got@.map_values(|o: Option<Object>| slot_view(o));
        let ghost raw = choose|raw: Seq<Option<ObjectView>>|
            self.raw_inputs(sockets@, raw) && coerced_all(raw, sockets@, gv);
        proof {
            assert forall|raw2: Seq<Option<ObjectView>>| #[trigger]
                self.raw_inputs(sockets@, raw2) implies raw2 == raw by {
                self.lemma_raw_unique(sockets@, raw2, raw);
            }
            assert forall|k: int| 0 <= k < gv.len() implies #[trigger] gv[k] == slot_view(
                got@[k],
            ) by {}
        }
        let ins = match all_present(got) {
            Ok(v) => v,
            Err(e) => {
                proof {
                    let k = choose|k: int| 0 <= k < got@.len() && !((#[trigger] got@[k]) is Some);
                    assert(gv[k] is None);
                    assert(Ok::<Option<ObjectView>, ObjectError>(gv[k]) == coerced(
                        raw[k],
                        sockets@[k].class.name@,
                        sockets@[k].class.parser,
                    ));
                    assert(!self.ready(sockets@));
                }
                return Err(e);
            },
        };
        proof {
            self.lemma_sees(sockets@, gv, ins@);
            assert forall|raw2: Seq<Option<ObjectView>>| #[trigger]
                self.raw_inputs(sockets@, raw2) implies forall|k: int|
                0 <= k < raw2.len() && k < sockets@.len() ==> raw2[k] is Some && coerced(
                    raw2[k],
                    sockets@[k].class.name@,
                    sockets@[k].class.parser,
                ) is Ok by {
                assert forall|k: int| 0 <= k < raw2.len() && k < sockets@.len() implies raw2[k]
                    is Some && coerced(
                    raw2[k],
                    sockets@[k].class.name@,
                    sockets@[k].class.parser,
                ) is Ok by {
                    assert(Ok::<Option<ObjectView>, ObjectError>(gv[k]) == coerced(
                        raw[k],
                        sockets@[k].class.name@,
                        sockets@[k].class.parser,
                    ));
                    assert(gv[k] == Some(ins@[k].view()));
                }
            }
        }
        Ok(ins)
    }

    /// Runs one node's behaviour against the executor and returns the branch it takes.
    fn run_node(&mut self, node: &Node, sockets: &Vec<InputSocket>) -> (r: Result<
        usize,
        StepError,
    >)
        requires
            old(self).wf(),
            old(self).node_stack@.len() > 0,
        ensures
            final(self).wf(),
            final(self).auto_execution == old(self).auto_execution,
            final(self).stop_point == old(self).stop_point,
            r matches Ok(b) ==> b < 2,
            r is Err ==> *final(self) == *old(self),
            !(node.view() is If) && r is Ok ==> r == Ok::<usize, StepError>(0),
            !(node.view() is Print) ==> final(self).output == old(self).output,
            node.view() is End && r is Ok ==> final(self).node_stack@ == old(self).node_stack@.drop_last(),
            node.view() is Array && r is Ok ==> exists|vals: Seq<ObjectView>|
                #[trigger] old(self).sees(sockets@, vals) && output_written(
                    *old(self),
                    *final(self),
                    ObjectView::Array(vals),
                ),
            node.view() is Bool && r is Ok ==> exists|vals: Seq<ObjectView>|
                #[trigger] old(self).sees(sockets@, vals) && vals.len() > 0 && output_written(
                    *old(self),
                    *final(self),
                    ObjectView::Bool(truthy(vals[0])->Some_0),
                ),
            node.view() is Number && r is Ok ==> exists|vals: Seq<ObjectView>|
                #[trigger] old(self).sees(sockets@, vals) && vals.len() > 0 && output_written(
                    *old(self),
                    *final(self),
                    ObjectView::Number(number_of(vals[0])->Some_0),
                ),
            node.view() is VariableGet && r is Ok ==> exists|vals: Seq<ObjectView>|
                #[trigger] old(self).sees(sockets@, vals) && vals.len() > 0 && outputs_set(
                    *old(self),
                    *final(self),
                    match variable_value(*old(self), text_of(vals[0])) {
                        Some(o) => seq![o],
                        None => Seq::<ObjectView>::empty(),
                    },
                ),
            node.view() is VariableSet && r is Ok ==> exists|vals: Seq<ObjectView>|
                #[trigger] old(self).sees(sockets@, vals) && vals.len() >= 2 && variable_value(
                    *final(self),
                    text_of(vals[0]),
                ) == Some(vals[1]),
            node.view() is Text && r is Ok ==> exists|vals: Seq<ObjectView>|
                #[trigger] old(self).sees(sockets@, vals) && vals.len() > 0 && output_written(
                    *old(self),
                    *final(self),
                    ObjectView::Text(text_of(vals[0])),
                ),
            same_nodes(old(self).loaded, final(self).loaded),
            (node.view() is Nop || node.view() is Start) ==> r == Ok::<usize, StepError>(0)
                && final(self).node_stack == old(self).node_stack && final(self).loaded == old(
                self,
            ).loaded && final(self).output == old(self).output,
            (node.view() is Print || node.view() is Array || node.view() is End
                || node.view() is Fixed) ==> (r is Ok <==> old(self).ready(sockets@)),
            !(node.view() is Nop || node.view() is Start) && !old(self).ready(sockets@) ==> r is Err,
            (node.view() is Supplied || node.view() is Fixed) && r is Ok ==> r == Ok::<
                usize,
                StepError,
            >(0),
            (node.view() is If || node.view() is Bool) && old(self).ready(sockets@) ==> (r is Ok
                <==> forall|vals: Seq<ObjectView>|
                #[trigger] old(self).sees(sockets@, vals) ==> vals.len() > 0 && truthy(vals[0]) is Some),
            node.view() is Number && old(self).ready(sockets@) ==> (r is Ok <==> forall|
                vals: Seq<ObjectView>,
            |
                #[trigger] old(self).sees(sockets@, vals) ==> vals.len() > 0 && number_of(vals[0]) is Some),
            (node.view() is Text || node.view() is VariableGet) && old(self).ready(sockets@) ==> (r
                is Ok <==> forall|vals: Seq<ObjectView>|
                #[trigger] old(self).sees(sockets@, vals) ==> vals.len() > 0),
            node.view() is VariableSet && old(self).ready(sockets@) ==> (r is Ok <==> forall|
                vals: Seq<ObjectView>,
            | #[trigger] old(self).sees(sockets@, vals) ==> vals.len() >= 2),
            node.view() is Supplied && old(self).ready(sockets@) ==> (r is Ok <==> forall|
                vals: Seq<ObjectView>,
            |
                #[trigger] old(self).sees(sockets@, vals) ==> vals.len() > 0 && vals[0] is Subroutine),

            r matches Err(e) ==> e != StepError::Finished && e != StepError::MissingStart && e
                != StepError::StepLimit && e != StepError::UnknownNode,
            node.view() is End && r is Ok ==> final(self).stack() == old(self).stack().drop_last(),
            (node.view() is Supplied || node.view() is Fixed) && r is Ok ==> {
                &&& final(self).stack().len() == old(self).stack().len() + 1
                &&& final(self).stack().drop_last() == old(self).stack()
                &&& final(self).node_stack@.last() is Some
            },
            !(node.view() is End || node.view() is Supplied || node.view() is Fixed) || r is Err
                ==> final(self).stack() == old(self).stack(),
            !(node.view() is End || node.view() is Supplied || node.view() is Fixed)
                ==> final(self).node_stack == old(self).node_stack,
            node.view() is Print && r is Ok ==> exists|vals: Seq<ObjectView>|
                old(self).sees(sockets@, vals) && final(self).output@ == old(self).output@
                    + print_text(vals, node.view()->Print_0),
            node.view() is Fixed && r is Ok ==> {
                &&& final(self).stack() == old(self).stack().push(Some(node.view()->Fixed_0))
                &&& exists|vals: Seq<ObjectView>, e: AbsoluteNodeId|
                    old(self).sees(sockets@, vals) && e.id_view() == node.view()->Fixed_0
                        && #[trigger] data_written(
                        old(self).loaded,
                        final(self).loaded,
                        e,
                        vals,
                    )
            },
            node.view() is Supplied && r is Ok ==> exists|vals: Seq<ObjectView>, e: AbsoluteNodeId|
                old(self).sees(sockets@, vals) && vals.len() > 0 && vals[0] is Subroutine
                    && e.id_view() == vals[0]->Subroutine_0 && final(self).stack() == old(
                    self,
                ).stack().push(Some(vals[0]->Subroutine_0)) && #[trigger] data_written(
                    old(self).loaded,
                    final(self).loaded,
                    e,
                    vals.drop_first(),
                ),
            node.view() is Supplied && r == Err::<usize, StepError>(StepError::NotASubroutine)
                ==> exists|vals: Seq<ObjectView>|
                old(self).sees(sockets@, vals) && vals.len() > 0 && !(vals[0] is Subroutine),
            node.view() is End && r is Ok ==> exists|vals: Seq<ObjectView>|
                old(self).sees(sockets@, vals) && match top_frame(old(self).node_stack@.drop_last()) {
                    Some(caller) => data_written(old(self).loaded, final(self).loaded, caller, vals),
                    None => final(self).loaded == old(self).loaded,
                },
            node.view() is If && r is Ok ==> exists|vals: Seq<ObjectView>|
                old(self).sees(sockets@, vals) && vals.len() > 0 && truthy(vals[0]) == Some(
                    r->Ok_0 == 1,
                ),
    {
        match node {
            Node::Nop(_) => Ok(0),
            Node::Start(_) => Ok(0),
            Node::If(_) => {
                let ins = self.gather(sockets)?;
                let ghost ours = ins@.map_values(|o: Object| o.view());
                proof {
                    assert forall|vals: Seq<ObjectView>| #[trigger] old(self).sees(sockets@, vals) implies vals
                        == ours by {
                        self.lemma_sees_unique(sockets@, vals, ours);
                    }
                }
                if_branch(&ins)
            },
            Node::Print(p) => {
                let ins = self.gather(sockets)?;
                write_print(&mut self.output, &ins, p.ln);
                Ok(0)
            },
            Node::Array(_) => {
                let ins = self.gather(sockets)?;
                let mut outs: Vec<Object> = Vec::new();
                outs.push(array_output(ins));
                self.set_outputs(&outs);
                Ok(0)
            },
            Node::Bool(_) => {
                let ins = self.gather(sockets)?;
                let ghost ours = ins@.map_values(|o: Object| o.view());
                proof {
                    assert forall|vals: Seq<ObjectView>| #[trigger] old(self).sees(sockets@, vals) implies vals
                        == ours by {
                        self.lemma_sees_unique(sockets@, vals, ours);
                    }
                }
                let mut outs: Vec<Object> = Vec::new();
                outs.push(bool_output(&ins)?);
                self.set_outputs(&outs);
                Ok(0)
            },
            Node::Number(_) => {
                let ins = self.gather(sockets)?;
                let ghost ours = ins@.map_values(|o: Object| o.view());
                proof {
                    assert forall|vals: Seq<ObjectView>| #[trigger] old(self).sees(sockets@, vals) implies vals
                        == ours by {
                        self.lemma_sees_unique(sockets@, vals, ours);
                    }
                }
                let mut outs: Vec<Object> = Vec::new();
                outs.push(number_output(&ins)?);
                self.set_outputs(&outs);
                Ok(0)
            },
            Node::Text(_) => {
                let ins = self.gather(sockets)?;
                let ghost ours = ins@.map_values(|o: Object| o.view());
                proof {
                    assert forall|vals: Seq<ObjectView>| #[trigger] old(self).sees(sockets@, vals) implies vals
                        == ours by {
                        self.lemma_sees_unique(sockets@, vals, ours);
                    }
                }
                let mut outs: Vec<Object> = Vec::new();
                outs.push(string_output(&ins)?);
                self.set_outputs(&outs);
                Ok(0)
            },
            Node::VariableGet(_) => {
                let ins = self.gather(sockets)?;
                let ghost ours = ins@.map_values(|o: Object| o.view());
                proof {
                    assert forall|vals: Seq<ObjectView>| #[trigger] old(self).sees(sockets@, vals) implies vals
                        == ours by {
                        self.lemma_sees_unique(sockets@, vals, ours);
                    }
                }
                if ins.len() == 0 {
                    return Err(StepError::MissingInput);
                }
                let name = ins[0].as_text();
                let mut outs: Vec<Object> = Vec::new();
                let ghost before = *self;
                match self.get_variable(&name) {
                    Some(v) => {
                        proof {
                            let i = choose|i: int|
                                0 <= i < self.variables@.len() && (#[trigger] self.variables@[i]).0@
                                    == name@ && v.view() == self.variables@[i].1.view();
                            let k = choose|k: int|
                                0 <= k < self.variables@.len() && (#[trigger] self.variables@[k]).0@
                                    == name@;
                            if i != k {
                                if i < k {
                                    assert(self.variables@[i].0@ != self.variables@[k].0@);
                                } else {
                                    assert(self.variables@[k].0@ != self.variables@[i].0@);
                                }
                            }
                        }
                        outs.push(v);
                    },
                    None => {},
                }
                assert(outs@.map_values(|o: Object| o.view()) =~= match variable_value(
                    before,
                    text_of(ours[0]),
                ) {
                    Some(o) => seq![o],
                    None => Seq::<ObjectView>::empty(),
                });
                self.set_outputs(&outs);
                Ok(0)
            },
            Node::VariableSet(_) => {
                let mut ins = self.gather(sockets)?;
                let ghost ours = ins@.map_values(|o: Object| o.view());
                proof {
                    assert forall|vals: Seq<ObjectView>| #[trigger] old(self).sees(sockets@, vals) implies vals
                        == ours by {
                        self.lemma_sees_unique(sockets@, vals, ours);
                    }
                }
                if ins.len() < 2 {
                    return Err(StepError::MissingInput);
                }
                let name = ins[0].as_text();
                let ghost all = ins@;
                let value = ins.remove(1);
                let ghost vv = value.view();
                assert(vv == ours[1]);
                self.set_variable(&name, value);
                proof {
                    let i = choose|i: int|
                        0 <= i < self.variables@.len() && (#[trigger] self.variables@[i]).0@ == name@
                            && self.variables@[i].1.view() == vv;
                    let k = choose|k: int|
                        0 <= k < self.variables@.len() && (#[trigger] self.variables@[k]).0@
                            == name@;
                    if i != k {
                        if i < k {
                            assert(self.variables@[i].0@ != self.variables@[k].0@);
                        } else {
                            assert(self.variables@[k].0@ != self.variables@[i].0@);
                        }
                    }
                    assert(variable_value(*self, text_of(ours[0])) == Some(ours[1]));
                }
                Ok(0)
            },
            Node::End(_) => {
                let ins = self.gather(sockets)?;
                let ghost vals = ins@.map_values(|o: Object| o.view());
                self.finish_subroutine(ins);
                Ok(0)
            },
            Node::Subroutine(c) => {
                let mut ins = self.gather(sockets)?;
                let ghost vals = ins@.map_values(|o: Object| o.view());
                proof {
                    assert forall|v2: Seq<ObjectView>| #[trigger] old(self).sees(sockets@, v2) implies v2
                        == vals by {
                        self.lemma_sees_unique(sockets@, v2, vals);
                    }
                }
                match &c.0 {
                    SubroutineCallTarget::Fixed(sub) => {
                        let entry = sub.input.copy();
                        let ghost e = entry;
                        self.execute_subroutine(entry, ins);
                        assert(data_written(old(self).loaded, self.loaded, e, vals));
                        Ok(0)
                    },
                    SubroutineCallTarget::Supplied => {
                        if ins.len() == 0 {
                            return Err(StepError::MissingInput);
                        }
                        let ghost all = ins@;
                        let first = ins.remove(0);
                        assert(vals[0] == first.view());
                        assert(ins@.map_values(|o: Object| o.view()) =~= vals.drop_first()) by {
                            assert(ins@ =~= all.subrange(1, all.len() as int));
                        }
                        match first {
                            Object::Subroutine(sub) => {
                                let ghost e = sub.input;
                                self.execute_subroutine(sub.input, ins);
                                assert(data_written(
                                    old(self).loaded,
                                    self.loaded,
                                    e,
                                    vals.drop_first(),
                                ));
                                Ok(0)
                            },
                            _ => Err(StepError::NotASubroutine),
                        }
                    },
                }
            },
        }
    }

    /// Executes the node on top of the stack, then advances along the branch it chose.
    /// A step moves the top frame on to its successor, or calls (one frame lands above
    /// the unchanged stack), or returns (frames leave the top; those below stay).
    pub fn execute_step(&mut self) -> (r: Result<(), StepError>)
        requires
            old(self).wf(),
        ensures
            final(self).wf(),
            old(self).node_stack@.len() == 0 <==> r == Err::<(), StepError>(StepError::Finished),
            r matches Err(e) ==> e != StepError::MissingStart && e != StepError::StepLimit,
            r is Err ==> *final(self) == *old(self),
            r is Err && r != Err::<(), StepError>(StepError::Finished) ==> step_fails(*old(self)),
            r is Ok ==> stepped(*old(self), *final(self)),
            same_nodes(old(self).loaded, final(self).loaded),
            final(self).auto_execution == old(self).auto_execution,
            final(self).stop_point == old(self).stop_point,
            r is Ok ==> ({
                let before = old(self).stack();
                let after = final(self).stack();
                ||| (after.len() == before.len() && after.drop_last() == before.drop_last()
                    && old(self).node_stack@.last() is Some && exists|b: usize|
                    b < 2 && #[trigger] successor(
                    final(self).loaded,
                    old(self).node_stack@.last()->Some_0,
                    b,
                    final(self).node_stack@.last(),
                ))
                ||| (after.len() == before.len() + 1 && after.drop_last() == before)
                ||| (after.len() < before.len() && (after.len() > 0 ==> after.drop_last()
                    == before.subrange(0, after.len() - 1)))
            }),
            r is Err ==> final(self).stack().len() <= old(self).stack().len() + 1,
            old(self).node_stack@.len() > 0 && old(self).node_stack@.last() is None ==> r is Ok,
            forall|id: AbsoluteNodeId, v: NodeView, sk: Seq<InputSocket>|
                old(self).node_stack@.len() > 0 && old(self).node_stack@.last() == Some(id)
                    && #[trigger] stored(old(self).loaded, id, v) && plain_node(v) && #[trigger] sockets_of(sk, v)
                    ==> (r is Ok <==> step_ok(*old(self), v, sk)),
            r == Err::<(), StepError>(StepError::UnknownNode) ==> old(self).node_stack@.len() > 0
                && old(self).node_stack@.last() is Some && forall|v: NodeView|
                #[trigger] stored(old(self).loaded, old(self).node_stack@.last()->Some_0, v) ==> !plain_node(v),
            forall|id: AbsoluteNodeId, v: NodeView|
                r is Ok && old(self).node_stack@.len() > 0 && old(self).node_stack@.last() == Some(id)
                    && #[trigger] stored(old(self).loaded, id, v) ==> step_effect(
                    *old(self),
                    *final(self),
                    id,
                    v,
                ),
    {
        let n = self.node_stack.len();
        if n == 0 {
            return Err(StepError::Finished);
        }
        let ghost top = self.node_stack@[n - 1];
        let node = match &self.node_stack[n - 1] {
            Some(id) => match self.loaded.get_node(id) {
                Some(nd) => nd.clone_node(),
                None => {
                    return Err(StepError::UnknownNode);
                },
            },
            None => Node::End(crate::stdlib::EndNode(Vec::new())),
        };
        proof {
            assert forall|id: AbsoluteNodeId, v: NodeView|
                top == Some(id) && #[trigger] stored(old(self).loaded, id, v) implies node.view()
                == v by {
                let i = choose|i: int|
                    0 <= i < old(self).loaded.programs@.len() && full_key(
                        #[trigger] old(self).loaded.programs@[i].0,
                    ) == full_key(id.0) && old(self).loaded.programs@[i].1.nodes.has(id.1)
                        && old(self).loaded.programs@[i].1.nodes.nodes@[old(
                        self,
                    ).loaded.programs@[i].1.nodes.index_of(id.1)].1.view() == v;
            }
            if plain_node(node.view()) {
                lemma_plain_inputs(node.view());
            }
            if top is None {
                assert(crate::node::input_names(node.view()) =~= Seq::<Seq<char>>::empty());
            }
        }
        let sockets = self.effective_inputs(&node)?;
        assert(top is None ==> node.view() is End);
        let ghost mid_stack = self.node_stack;
        let ghost mid = *self;
        let res = self.run_node(&node, &sockets);
        proof {
            assert(mid == *old(self));
            if plain_node(node.view()) {
                if node.view() is Nop || node.view() is Start {
                    assert(sockets@.len() == 0);
                    assert(old(self).ready(sockets@));
                }
                assert((res is Ok) <==> step_ok(*old(self), node.view(), sockets@)) by {
                    match node.view() {
                        NodeView::Nop => {},
                        NodeView::Start(_, _) => {},
                        NodeView::If => {},
                        NodeView::Bool => {},
                        NodeView::Number => {},
                        NodeView::Text => {},
                        NodeView::VariableGet => {},
                        NodeView::VariableSet => {},
                        NodeView::Supplied => {},
                        NodeView::Print(_, _) => {},
                        NodeView::Array(_) => {},
                        NodeView::End(_) => {},
                        _ => {},
                    }
                }
                assert forall|sk: Seq<InputSocket>| #[trigger] sockets_of(sk, node.view()) implies (
                res is Ok <==> step_ok(*old(self), node.view(), sk)) by {
                    assert(same_sockets(sk, sockets@)) by {
                        assert forall|k: int| 0 <= k < sk.len() implies (#[trigger] sk[k]).class.name@
                            == sockets@[k].class.name@ && sk[k].class.parser
                            == sockets@[k].class.parser by {}
                    }
                    old(self).lemma_same_sockets(sk, sockets@);
                    if step_ok(*old(self), node.view(), sk) {
                        assert forall|vals: Seq<ObjectView>| #[trigger] old(self).sees(
                            sockets@,
                            vals,
                        ) implies needs_met(node.view(), vals) by {
                            assert(old(self).sees(sk, vals));
                        }
                    }
                    if step_ok(*old(self), node.view(), sockets@) {
                        assert forall|vals: Seq<ObjectView>| #[trigger] old(self).sees(
                            sk,
                            vals,
                        ) implies needs_met(node.view(), vals) by {
                            assert(old(self).sees(sockets@, vals));
                        }
                    }
                }
            }
            if top is None {
                assert(sockets@.len() == 0);
                assert(old(self).ready(sockets@));
            }
        }
        let branch = match res {
            Ok(b) => b,
            Err(e) => {
                return Err(e);
            },
        };
        let ghost after_run = *self;
        let ghost ran = self.node_stack@;
        self.advance(branch);
        proof {
            if !(node.view() is End || node.view() is Supplied || node.view() is Fixed) {
                assert(ran == mid_stack@);
                assert(old(self).node_stack@.last() is Some);
                assert(successor(
                    self.loaded,
                    old(self).node_stack@.last()->Some_0,
                    branch,
                    self.node_stack@.last(),
                ));
            }
            assert forall|id: AbsoluteNodeId, v: NodeView|
                old(self).node_stack@.last() == Some(id) && #[trigger] stored(
                    old(self).loaded,
                    id,
                    v,
                ) implies step_effect(*old(self), *self, id, v) by {
                assert(top == Some(id));
                assert(node.view() == v) by {
                    let i = choose|i: int|
                        0 <= i < old(self).loaded.programs@.len() && full_key(
                            #[trigger] old(self).loaded.programs@[i].0,
                        ) == full_key(id.0) && old(self).loaded.programs@[i].1.nodes.has(id.1)
                            && old(self).loaded.programs@[i].1.nodes.nodes@[old(
                            self,
                        ).loaded.programs@[i].1.nodes.index_of(id.1)].1.view() == v;
                }
                assert(mid == *old(self));
                match v {
                    NodeView::Print(ln, _) => {
                        assert(self.output == after_run.output);
                    },
                    NodeView::If => {},
                    NodeView::End(_) => {
                        assert(self.loaded == after_run.loaded);
                        assert(ran == old(self).node_stack@.drop_last());
                        if old(self).node_stack@.len() == 1 {
                            assert(ran.len() == 0);
                        }
                    },
                    NodeView::Array(_) => {
                        assert(self.loaded == after_run.loaded);
                    },
                    NodeView::Bool => {
                        assert(self.loaded == after_run.loaded);
                    },
                    NodeView::Number => {
                        assert(self.loaded == after_run.loaded);
                    },
                    NodeView::Text => {
                        assert(self.loaded == after_run.loaded);
                    },
                    NodeView::VariableGet => {
                        assert(self.loaded == after_run.loaded);
                    },
                    NodeView::VariableSet => {
                        assert(self.variables == after_run.variables);
                    },
                    _ => {},
                }
            }
        }
        proof {
            assert(self.output == after_run.output);
            if top is None {
                assert(node.view() is End);
                assert(ran == old(self).node_stack@.drop_last());
            }
            assert forall|id: AbsoluteNodeId, v: NodeView|
                old(self).node_stack@.last() == Some(id) && #[trigger] stored(
                    old(self).loaded,
                    id,
                    v,
                ) implies (!(v is Print) ==> self.output == old(self).output) && (moves_on(v)
                ==> self.node_stack@.len() == old(self).node_stack@.len()
                && self.node_stack@.drop_last() == old(self).node_stack@.drop_last() && successor(
                self.loaded,
                id,
                0,
                self.node_stack@.last(),
            )) by {
                assert(top == Some(id));
                assert(node.view() == v);
                if moves_on(v) {
                    assert(branch == 0);
                    assert(ran == mid_stack@);
                }
            }
        }
        Ok(())
    }

    /// The breakpoint is set and names the node on top of the stack.
    pub open spec fn at_stop(&self) -> bool {
        &&& self.stop_point is Some
        &&& self.node_stack@.len() > 0
        &&& self.node_stack@.last() matches Some(top) && top.id_view()
            == self.stop_point->Some_0.id_view()
    }

    fn is_at_stop(&self) -> (r: bool)
        ensures
            r == self.at_stop(),
    {
        match &self.stop_point {
            Some(stop) => match self.current_node() {
                Some(top) => stop.same_as(top),
                None => false,
            },
            None => false,
        }
    }

    /// Steps while the stack is not empty and automatic execution is on, at most `fuel`
    /// times; with `check_first`, a breakpoint on top halts before any step, and after
    /// each step, reaching the breakpoint turns automatic execution off.
    fn run_loop(&mut self, fuel: u64, check_first: bool) -> (r: Result<(), StepError>)
        requires
            old(self).wf(),
        ensures
            final(self).wf(),
            final(self).stop_point == old(self).stop_point,
            r is Ok ==> final(self).node_stack@.len() == 0 || !final(self).auto_execution,
            r is Ok && old(self).auto_execution && final(self).node_stack@.len() > 0
                ==> final(self).at_stop(),
            !old(self).auto_execution ==> r is Ok && final(self).node_stack == old(
                self,
            ).node_stack,
            check_first && old(self).auto_execution && old(self).at_stop() ==> r is Ok
                && final(self).node_stack == old(self).node_stack && !final(self).auto_execution
                && final(self).loaded == old(self).loaded && final(self).output == old(self).output,
            r == Err::<(), StepError>(StepError::StepLimit) ==> final(self).steps@ == old(
                self,
            ).steps@ + fuel,
            r matches Err(e) ==> e != StepError::MissingStart && e != StepError::Finished,
            r matches Err(e) && e != StepError::StepLimit && e != StepError::MissingStart
                ==> step_fails(*final(self)),
            exists|tr: Seq<Executor>|
                is_run(tr) && tr[0] == *old(self) && same_run_state(tr.last(), *final(self))
                    && final(self).steps@ == old(self).steps@ + (tr.len() - 1),
    {
        if check_first && self.auto_execution && self.is_at_stop() {
            self.auto_execution = false;
            assert(is_run(seq![*old(self)]));
            assert(seq![*old(self)].last() == *old(self));
            return Ok(());
        }
        let ghost mut tr: Seq<Executor> = seq![*self];
        assert(is_run(tr));
        let mut fuel_left = fuel;
        while self.node_stack.len() > 0 && self.auto_execution
            invariant
                self.wf(),
                old(self).auto_execution && self.node_stack@.len() > 0 && !self.auto_execution
                    ==> self.at_stop(),
                !old(self).auto_execution ==> !self.auto_execution && self.node_stack
                    == old(self).node_stack,
                self.stop_point == old(self).stop_point,
                fuel_left <= fuel,
                self.steps@ + fuel_left == old(self).steps@ + fuel,
                check_first && old(self).auto_execution ==> !old(self).at_stop(),
                is_run(tr),
                tr[0] == *old(self),
                tr.last() == *self,
                self.steps@ == old(self).steps@ + (tr.len() - 1),
            decreases fuel_left,
        {
            if fuel_left == 0 {
                return Err(StepError::StepLimit);
            }
            fuel_left = fuel_left - 1;
            let ghost taken = self.steps@;
            let ghost prev = *self;
            match self.execute_step() {
                Ok(()) => {},
                Err(e) => {
                    return Err(e);
                },
            }
            let ghost m = *self;
            self.steps = Ghost(taken + 1);
            if self.is_at_stop() {
                self.auto_execution = false;
            }
            proof {
                assert(stepped(prev, m));
                assert(advanced(prev, *self));
                let tr2 = tr.push(*self);
                assert forall|i: int| 0 <= i < tr2.len() - 1 implies #[trigger] advanced(
                    tr2[i],
                    tr2[i + 1],
                ) by {
                    if i < tr.len() - 1 {
                        assert(tr2[i] == tr[i] && tr2[i + 1] == tr[i + 1]);
                    } else {
                        assert(tr2[i] == prev);
                    }
                }
                tr = tr2;
            }
        }
        Ok(())
    }

    /// Steps automatically while the stack is not empty; a breakpoint on top halts it,
    /// before a step or after one.
    pub fn execution_loop(&mut self) -> (r: Result<(), StepError>)
        requires
            old(self).wf(),
        ensures
            final(self).wf(),
            r is Ok ==> final(self).node_stack@.len() == 0 || !final(self).auto_execution,
            r is Ok && old(self).auto_execution && final(self).node_stack@.len() > 0
                ==> final(self).at_stop(),
            !old(self).auto_execution ==> r is Ok && final(self).node_stack == old(
                self,
            ).node_stack,
            old(self).auto_execution && old(self).at_stop() ==> r is Ok && final(self).node_stack
                == old(self).node_stack && !final(self).auto_execution,
            r == Err::<(), StepError>(StepError::StepLimit) ==> final(self).steps@ == old(
                self,
            ).steps@ + u64::MAX,
            r matches Err(e) ==> e != StepError::MissingStart && e != StepError::Finished,
            r matches Err(e) && e != StepError::StepLimit && e != StepError::MissingStart
                ==> step_fails(*final(self)),
            exists|tr: Seq<Executor>|
                is_run(tr) && tr[0] == *old(self) && same_run_state(tr.last(), *final(self)),
    {
        self.run_loop(u64::MAX, true)
    }

    /// Pushes the start node of entry `main` of program `__main__` (of the start nodes
    /// of that entry, the one with the smallest id) and runs automatically if `auto` is
    /// set.
    pub fn start_execution(&mut self, auto: bool) -> (r: Result<(), StepError>)
        requires
            old(self).wf(),
        ensures
            final(self).wf(),
            !has_main(old(self).loaded) <==> r == Err::<(), StepError>(StepError::MissingStart),
            !has_main(old(self).loaded) ==> final(self).node_stack == old(self).node_stack,
            has_main(old(self).loaded) && !auto ==> {
                &&& r is Ok
                &&& final(self).node_stack@.len() == old(self).node_stack@.len() + 1
                &&& final(self).node_stack@.drop_last() == old(self).node_stack@
                &&& final(self).node_stack@.last() matches Some(a) && a.id_view().0
                    == Seq::<Seq<char>>::empty() && a.id_view().1 == "__main__"@ && main_entry(
                    old(self).loaded,
                    a.1,
                )
            },
            r is Ok ==> final(self).node_stack@.len() == 0 || !final(self).auto_execution,
            r is Ok && auto && final(self).node_stack@.len() > 0 ==> final(self).at_stop(),
            r == Err::<(), StepError>(StepError::StepLimit) ==> final(self).steps@ == old(
                self,
            ).steps@ + u64::MAX,
            r matches Err(e) && e != StepError::StepLimit && e != StepError::MissingStart
                ==> step_fails(*final(self)),
            has_main(old(self).loaded) ==> exists|tr: Seq<Executor>|
                is_run(tr) && started(*old(self), tr[0], auto) && same_run_state(
                    tr.last(),
                    *final(self),
                ),
    {
        let main = ModulePath::top(String::from_str("__main__"));
        assert(full_key(main) =~= seq!["__main__"@]);
        let entry = String::from_str("main");
        match self.loaded.get_start_node(&main, &entry) {
            None => {
                proof {
                    assert forall|i: int|
                        0 <= i < self.loaded.programs@.len() && full_key(
                            #[trigger] self.loaded.programs@[i].0,
                        ) == seq!["__main__"@] implies !has_start(
                        self.loaded.programs@[i].1,
                        "main"@,
                    ) by {}
                }
                Err(StepError::MissingStart)
            },
            Some(start) => {
                proof {
                    let i = choose|i: int|
                        0 <= i < self.loaded.programs@.len() && full_key(
                            #[trigger] self.loaded.programs@[i].0,
                        ) == seq!["__main__"@];
                    assert(first_start(self.loaded.programs@[i].1, "main"@, start.1));
                    assert(main_entry(self.loaded, start.1));
                    let w = choose|k: int|
                        #[trigger] crate::program::is_start_of(
                            self.loaded.programs@[i].1,
                            "main"@,
                            k,
                        ) && self.loaded.programs@[i].1.nodes.nodes@[k].0 == start.1;
                    assert(has_start(self.loaded.programs@[i].1, "main"@));
                    assert(start.0.segs() =~= Seq::<Seq<char>>::empty()) by {
                        assert(full_key(start.0).drop_last() =~= start.0.segs());
                    }
                    assert(full_key(start.0).last() == start.0.leaf());
                }
                self.auto_execution = auto;
                self.node_stack.push(Some(start));
                assert(self.node_stack@.drop_last() =~= old(self).node_stack@);
                assert(started(*old(self), *self, auto));
                self.execution_loop()
            },
        }
    }

    /// Turns automatic execution back on and runs from the top of the stack, stepping
    /// past a breakpoint that stands there.
    pub fn resume_auto(&mut self) -> (r: Result<(), StepError>)
        requires
            old(self).wf(),
        ensures
            final(self).wf(),
            final(self).stop_point == old(self).stop_point,
            r is Ok ==> final(self).node_stack@.len() == 0 || (!final(self).auto_execution
                && final(self).at_stop()),
            r == Err::<(), StepError>(StepError::StepLimit) ==> final(self).steps@ == old(
                self,
            ).steps@ + u64::MAX,
            r matches Err(e) ==> e != StepError::MissingStart && e != StepError::Finished,
            r matches Err(e) && e != StepError::StepLimit && e != StepError::MissingStart
                ==> step_fails(*final(self)),
            exists|tr: Seq<Executor>|
                is_run(tr) && same_run_state(tr[0], *old(self)) && tr[0].auto_execution
                    && tr[0].stop_point == old(self).stop_point && same_run_state(
                    tr.last(),
                    *final(self),
                ),
    {
        self.auto_execution = true;
        self.run_loop(u64::MAX, false)
    }

    /// Runs automatically until the node `node` is on top of the stack; if it is there
    /// already, nothing runs.
    pub fn resume_until(&mut self, node: AbsoluteNodeId) -> (r: Result<(), StepError>)
        requires
            old(self).wf(),
        ensures
            final(self).wf(),
            final(self).stop_point matches Some(s) && s.id_view() == node.id_view(),
            (old(self).node_stack@.len() > 0 && (old(self).node_stack@.last() matches Some(t)
                && t.id_view() == node.id_view())) ==> r is Ok && final(self).node_stack == old(
                self,
            ).node_stack && !final(self).auto_execution && final(self).loaded == old(self).loaded
                && final(self).output == old(self).output,
            r is Ok ==> final(self).node_stack@.len() == 0 || {
                &&& !final(self).auto_execution
                &&& final(self).node_stack@.last() matches Some(top) && top.id_view()
                    == node.id_view()
            },
            r == Err::<(), StepError>(StepError::StepLimit) ==> final(self).steps@ == old(
                self,
            ).steps@ + u64::MAX,
            r matches Err(e) ==> e != StepError::MissingStart && e != StepError::Finished,
            r matches Err(e) && e != StepError::StepLimit && e != StepError::MissingStart
                ==> step_fails(*final(self)),
            exists|tr: Seq<Executor>|
                is_run(tr) && same_run_state(tr[0], *old(self)) && tr[0].auto_execution && (
                tr[0].stop_point matches Some(p) && p.id_view() == node.id_view())
                    && same_run_state(tr.last(), *final(self)),
    {
        self.stop_point = Some(node);
        self.auto_execution = true;
        self.run_loop(u64::MAX, true)
    }

    /// Hands over the text that print nodes wrote, leaving none behind.
    pub fn take_output(&mut self) -> (r: String)
        ensures
            r@ == old(self).output@,
            final(self).output@.len() == 0,
            final(self).node_stack == old(self).node_stack,
            final(self).loaded == old(self).loaded,
    {
        let mut r = String::new();
        push_str(&mut r, &self.output);
        self.output = String::new();
        r
    }

    pub fn get_class(&self, path: &ModulePath) -> (r: Option<&Class>)
        ensures
            r is None <==> !self.loaded.modules.holds(full_key(*path)),
    {
        self.loaded.get_class(path)
    }
}

} // verus!
