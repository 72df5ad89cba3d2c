//! The execution engine: a global object, a store of objects and functions,
//! and a stack of lexical scopes, with a tree-walking evaluator over the
//! expression type.
//!
//! Objects and functions live in stores owned by the interpreter and are
//! shared by index, so a mutation through one handle is seen through every
//! copy of it. Evaluation is fuel-indexed: the mathematical semantics
//! `eval` and the runtime agree step for step, and a computation that would
//! not finish within the fuel ends in the `Exhausted` outcome.
use std::rc::Rc;
use vstd::prelude::*;
use crate::ast::{Const, Expr, rc_clone_expr};
use crate::object::{ObjectData, lookup_entries, set_entries, lemma_set_from_membership,
    lemma_lookup_from_membership};
use crate::value::{Value, ValueV, bytes_eq, dup_bytes, is_true, is_truthy, to_str_v, to_string,
    val_eq, value_eq, num_op_v, apply_num_op, bit_op_v, apply_bit_op, comp_op_v, apply_comp_op,
    to_num_v, to_number};
use crate::dbl::{NEG_INF_BITS, NAN_BITS, d_is_nan, d_lt, is_nan_bits, lt_bits, dbl_of_u128,
    of_u128_bits, bits_of_i53, bits_of_int53};

verus! {

/// The host functions the interpreter installs at construction.
#[derive(Clone, Copy, PartialEq, Eq, Structural, Debug)]
pub enum NativeFunc {
    /// `console.log`: append the arguments to the output buffer.
    ConsoleLog,
    /// `Math.max`: the numeric maximum of the arguments.
    MathMax,
}

/// A user-defined function: parameter names, a body, and the captured scope
/// chain its body closes over.
#[derive(Debug)]
pub struct RegularFunction {
    pub args: Vec<Vec<u8>>,
    pub body: Rc<Expr>,
    pub captured: Vec<usize>,
}

/// A function is user-defined or native.
#[derive(Debug)]
pub enum Function {
    RegularFunc(RegularFunction),
    NativeFunc(NativeFunc),
}

/// A function together with the object that carries its fields.
#[derive(Debug)]
pub struct FunctionRecord {
    pub func: Function,
    pub props: usize,
}

/// The mathematical shape of a function record.
pub enum FuncV {
    Regular { params: Seq<Seq<u8>>, body: Expr, captured: Seq<int>, props: int },
    Native { kind: NativeFunc, props: int },
}

impl View for FunctionRecord {
    type V = FuncV;

    open spec fn view(&self) -> FuncV {
        match &self.func {
            Function::RegularFunc(r) => FuncV::Regular {
                params: r.args@.map(|i: int, p: Vec<u8>| p@),
                body: *r.body,
                captured: r.captured@.map(|i: int, x: usize| x as int),
                props: self.props as int,
            },
            Function::NativeFunc(k) => FuncV::Native { kind: *k, props: self.props as int },
        }
    }
}

/// The full interpreter state, mathematically.
pub struct StateV {
    pub heap: Seq<Seq<(Seq<u8>, ValueV)>>,
    pub funcs: Seq<FuncV>,
    pub scope_store: Seq<Seq<(Seq<u8>, ValueV)>>,
    pub stack: Seq<int>,
    pub global: int,
    pub out: Seq<u8>,
}

/// The outcome of evaluating one expression.
#[derive(Debug)]
pub enum Outcome {
    /// Ordinary completion.
    Normal(Value),
    /// A `return` on its way to the enclosing call frame.
    Returned(Value),
    /// A thrown value unwinding out.
    Thrown(Value),
    /// The fuel ran out before the expression finished.
    Exhausted,
}

/// The mathematical shape of an outcome.
pub enum OutcomeV {
    Normal(ValueV),
    Returned(ValueV),
    Thrown(ValueV),
    Exhausted,
}

impl View for Outcome {
    type V = OutcomeV;

    open spec fn view(&self) -> OutcomeV {
        match self {
            Outcome::Normal(v) => OutcomeV::Normal(v@),
            Outcome::Returned(v) => OutcomeV::Returned(v@),
            Outcome::Thrown(v) => OutcomeV::Thrown(v@),
            Outcome::Exhausted => OutcomeV::Exhausted,
        }
    }
}

/// A value's handles point into the state's stores.
pub open spec fn val_ok(v: ValueV, s: StateV) -> bool {
    match v {
        ValueV::Object(id) => 0 <= id < s.heap.len(),
        ValueV::Function(f) => 0 <= f < s.funcs.len(),
        _ => true,
    }
}

/// All values of an entry list point into the state's stores.
pub open spec fn entries_ok(es: Seq<(Seq<u8>, ValueV)>, s: StateV) -> bool {
    forall|j: int| 0 <= j < es.len() ==> val_ok((#[trigger] es[j]).1, s)
}

/// A function record's handles point into the state's stores.
pub open spec fn func_ok(f: FuncV, s: StateV) -> bool {
    match f {
        FuncV::Regular { captured, props, .. } => 0 <= props < s.heap.len() && forall|j: int|
            0 <= j < captured.len() ==> 0 <= #[trigger] captured[j] < s.scope_store.len(),
        FuncV::Native { props, .. } => 0 <= props < s.heap.len(),
    }
}

/// Well-formedness: every handle anywhere in the state points into its
/// store, and the global object exists.
pub open spec fn wf(s: StateV) -> bool {
    &&& 0 <= s.global < s.heap.len()
    &&& forall|i: int| 0 <= i < s.heap.len() ==> entries_ok(#[trigger] s.heap[i], s)
    &&& forall|i: int| 0 <= i < s.scope_store.len() ==> entries_ok(#[trigger] s.scope_store[i], s)
    &&& forall|i: int| 0 <= i < s.stack.len() ==> 0 <= #[trigger] s.stack[i] < s.scope_store.len()
    &&& forall|i: int| 0 <= i < s.funcs.len() ==> func_ok(#[trigger] s.funcs[i], s)
}

/// The stores only grow during evaluation.
pub open spec fn grows(a: StateV, b: StateV) -> bool {
    a.heap.len() <= b.heap.len() && a.funcs.len() <= b.funcs.len() && a.scope_store.len()
        <= b.scope_store.len()
}

/// An outcome's value points into the state's stores.
pub open spec fn outcome_ok(o: OutcomeV, s: StateV) -> bool {
    match o {
        OutcomeV::Normal(v) => val_ok(v, s),
        OutcomeV::Returned(v) => val_ok(v, s),
        OutcomeV::Thrown(v) => val_ok(v, s),
        OutcomeV::Exhausted => true,
    }
}

pub open spec fn k_proto() -> Seq<u8> {
    seq![95u8, 95u8, 112u8, 114u8, 111u8, 116u8, 111u8, 95u8, 95u8]
}

pub open spec fn k_prototype() -> Seq<u8> {
    seq![112u8, 114u8, 111u8, 116u8, 111u8, 116u8, 121u8, 112u8, 101u8]
}

pub open spec fn k_length() -> Seq<u8> {
    seq![108u8, 101u8, 110u8, 103u8, 116u8, 104u8]
}

pub open spec fn k_this() -> Seq<u8> {
    seq![116u8, 104u8, 105u8, 115u8]
}

pub open spec fn k_object() -> Seq<u8> {
    seq![79u8, 98u8, 106u8, 101u8, 99u8, 116u8]
}

pub open spec fn k_array() -> Seq<u8> {
    seq![65u8, 114u8, 114u8, 97u8, 121u8]
}

/// Read a field through the prototype chain, with a depth bound: the value
/// at the nearest object in the `__proto__` chain that binds the key, or
/// Undefined.
pub open spec fn heap_get_s(
    h: Seq<Seq<(Seq<u8>, ValueV)>>,
    id: int,
    k: Seq<u8>,
    depth: nat,
) -> ValueV
    decreases depth,
{
    if depth == 0 || !(0 <= id < h.len()) {
        ValueV::Undefined
    } else {
        match lookup_entries(h[id], k) {
            Some(v) => v,
            None => match lookup_entries(h[id], k_proto()) {
                Some(p) => match p {
                    ValueV::Object(pid) => heap_get_s(h, pid, k, (depth - 1) as nat),
                    _ => ValueV::Undefined,
                },
                None => ValueV::Undefined,
            },
        }
    }
}

/// Read a field through the prototype chain. The depth bound of one more
/// than the heap size tolerates prototype cycles, which then read as
/// Undefined.
pub open spec fn heap_get_field(h: Seq<Seq<(Seq<u8>, ValueV)>>, id: int, k: Seq<u8>) -> ValueV {
    heap_get_s(h, id, k, (h.len() + 1) as nat)
}

/// Write a field on the object itself, never on a prototype.
pub open spec fn heap_set_field(
    h: Seq<Seq<(Seq<u8>, ValueV)>>,
    id: int,
    k: Seq<u8>,
    v: ValueV,
) -> Seq<Seq<(Seq<u8>, ValueV)>> {
    h.update(id, set_entries(h[id], k, v))
}

/// Read a field of any value: objects and functions have fields, everything
/// else reads as Undefined.
pub open spec fn get_field_of_value(s: StateV, v: ValueV, k: Seq<u8>) -> ValueV {
    match v {
        ValueV::Object(id) => heap_get_field(s.heap, id, k),
        ValueV::Function(f) => if 0 <= f < s.funcs.len() {
            heap_get_field(s.heap, props_of(s.funcs[f]), k)
        } else {
            ValueV::Undefined
        },
        _ => ValueV::Undefined,
    }
}

/// The props object of a function record.
pub open spec fn props_of(f: FuncV) -> int {
    match f {
        FuncV::Regular { props, .. } => props,
        FuncV::Native { props, .. } => props,
    }
}

/// Write a field of any value: a write to a non-object is silently dropped.
pub open spec fn set_field_on_value(s: StateV, v: ValueV, k: Seq<u8>, val: ValueV) -> StateV {
    match v {
        ValueV::Object(id) => if 0 <= id < s.heap.len() {
            StateV { heap: heap_set_field(s.heap, id, k, val), ..s }
        } else {
            s
        },
        ValueV::Function(f) => if 0 <= f < s.funcs.len() && 0 <= props_of(s.funcs[f])
            < s.heap.len() {
            StateV { heap: heap_set_field(s.heap, props_of(s.funcs[f]), k, val), ..s }
        } else {
            s
        },
        _ => s,
    }
}

/// Look a name up the scope stack, topmost first: the binding in the
/// topmost scope of the stack's first `i` scopes that binds it.
pub open spec fn scope_lookup(s: StateV, n: Seq<u8>, i: int) -> Option<ValueV>
    decreases i,
{
    if i <= 0 {
        None
    } else {
        let sid = s.stack[i - 1];
        if 0 <= sid < s.scope_store.len() {
            match lookup_entries(s.scope_store[sid], n) {
                Some(v) => Some(v),
                None => scope_lookup(s, n, i - 1),
            }
        } else {
            scope_lookup(s, n, i - 1)
        }
    }
}

/// A local read: the scope stack first, then the global object's fields.
pub open spec fn local_get(s: StateV, n: Seq<u8>) -> ValueV {
    match scope_lookup(s, n, s.stack.len() as int) {
        Some(v) => v,
        None => heap_get_field(s.heap, s.global, n),
    }
}

/// Assign to the nearest scope that already binds the name, topmost first;
/// `None` if no scope on the stack binds it.
pub open spec fn scope_set_from(s: StateV, n: Seq<u8>, v: ValueV, i: int) -> Option<StateV>
    decreases i,
{
    if i <= 0 {
        None
    } else {
        let sid = s.stack[i - 1];
        if 0 <= sid < s.scope_store.len() && lookup_entries(s.scope_store[sid], n) is Some {
            Some(
                StateV {
                    scope_store: s.scope_store.update(sid, set_entries(s.scope_store[sid], n, v)),
                    ..s
                },
            )
        } else {
            scope_set_from(s, n, v, i - 1)
        }
    }
}

impl View for Interpreter {
    type V = StateV;

    open spec fn view(&self) -> StateV {
        StateV {
            heap: self.heap@.map(|i: int, o: ObjectData| o@),
            funcs: self.funcs@.map(|i: int, f: FunctionRecord| f@),
            scope_store: self.scope_store@.map(|i: int, o: ObjectData| o@),
            stack: self.scope_stack@.map(|i: int, x: usize| x as int),
            global: self.global as int,
            out: self.out@,
        }
    }
}

/// An execution engine
pub trait Executor {
    /// The engine's internal invariant
    spec fn inv(&self) -> bool;

    /// Makes a new execution engine
    fn new() -> (r: Box<Self>) where Self: core::marker::Sized
        ensures
            r.inv(),
    ;

    /// Sets a global variable
    fn set_global(&mut self, name: Vec<u8>, val: Value) -> (r: Value)
        requires
            old(self).inv(),
        ensures
            final(self).inv(),
    ;

    /// Gets a global variable
    fn get_global(&self, name: Vec<u8>) -> Value
        requires
            self.inv(),
    ;

    /// Make a new scope
    fn make_scope(&mut self) -> (id: usize)
        requires
            old(self).inv(),
        ensures
            final(self).inv(),
    ;

    /// Destroy the current scope
    fn destroy_scope(&mut self)
        requires
            old(self).inv(),
        ensures
            final(self).inv(),
    ;

    /// Runs the expression
    fn run(&mut self, expr: &Expr) -> (r: Result<Value, Value>)
        requires
            old(self).inv(),
        ensures
            final(self).inv(),
    ;
}

/// An interpreter: the owner of the heap, the function store, the scope
/// store and the global object.
#[derive(Debug)]
pub struct Interpreter {
    pub heap: Vec<ObjectData>,
    pub funcs: Vec<FunctionRecord>,
    pub scope_store: Vec<ObjectData>,
    pub scope_stack: Vec<usize>,
    pub global: usize,
    pub out: Vec<u8>,
}

impl Interpreter {
    /// Push a fresh empty object and hand back its id.
    fn alloc_obj(&mut self) -> (id: usize)
        requires
            wf(old(self)@),
        ensures
            wf(final(self)@),
            final(self)@ == (StateV {
                heap: old(self)@.heap.push(Seq::empty()),
                ..old(self)@
            }),
            id == old(self)@.heap.len(),
            grows(old(self)@, final(self)@),
    {
        let id = self.heap.len();
        self.heap.push(ObjectData::new());
        proof {
            assert(self@.heap =~~= old(self)@.heap.push(Seq::empty()));
            assert(self@ == (StateV { heap: old(self)@.heap.push(Seq::empty()), ..old(self)@ }));
            lemma_wf_push_obj(old(self)@, self@);
        }
        id
    }

    /// Read a field of the object `id` through the prototype chain.
    fn heap_get(&self, id: usize, k: &Vec<u8>) -> (r: Value)
        requires
            wf(self@),
            id < self@.heap.len(),
        ensures
            r@ == heap_get_field(self@.heap, id as int, k@),
            val_ok(r@, self@),
    {
        let ghost h = self@.heap;
        let mut cur = id;
        let mut depth: usize = 0;
        // one hop more than the heap has objects: enough to reach any
        // binding, and a bound against prototype cycles
        let hops = self.heap.len();
        let key_proto: Vec<u8> = vec![95u8, 95u8, 112u8, 114u8, 111u8, 116u8, 111u8, 95u8, 95u8];
        proof {
            assert(key_proto@ =~= k_proto());
        }
        loop
            invariant
                wf(self@),
                h == self@.heap,
                0 <= cur < h.len(),
                depth <= hops,
                hops == h.len(),
                key_proto@ == k_proto(),
                heap_get_field(h, id as int, k@) == heap_get_s(
                    h,
                    cur as int,
                    k@,
                    (hops + 1 - depth) as nat,
                ),
            decreases hops - depth,
        {
            proof {
                assert(self@.heap[cur as int] == self.heap@[cur as int]@);
            }
            match self.heap[cur].get(k) {
                Some(v) => {
                    proof {
                        lemma_lookup_from_membership(h[cur as int], k@, 0);
                    }
                    return v;
                },
                None => {
                    match self.heap[cur].get(&key_proto) {
                        Some(p) => {
                            match p {
                                Value::Object(pid) => {
                                    proof {
                                        lemma_lookup_from_membership(h[cur as int], k_proto(), 0);
                                    }
                                    if depth >= hops {
                                        proof {
                                            assert(heap_get_s(h, pid as int, k@, 0)
                                                == ValueV::Undefined);
                                        }
                                        return Value::Undefined;
                                    }
                                    cur = pid;
                                    depth = depth + 1;
                                },
                                _ => {
                                    return Value::Undefined;
                                },
                            }
                        },
                        None => {
                            return Value::Undefined;
                        },
                    }
                },
            }
        }
    }

    /// Write a field on the object `id` itself.
    fn heap_set(&mut self, id: usize, k: Vec<u8>, v: Value)
        requires
            wf(old(self)@),
            id < old(self)@.heap.len(),
            val_ok(v@, old(self)@),
        ensures
            wf(final(self)@),
            final(self)@ == (StateV {
                heap: heap_set_field(old(self)@.heap, id as int, k@, v@),
                ..old(self)@
            }),
            grows(old(self)@, final(self)@),
    {
        let mut o = self.heap.remove(id);
        o.set(k, v);
        self.heap.insert(id, o);
        proof {
            assert(self@.heap =~~= heap_set_field(old(self)@.heap, id as int, k@, v@));
            assert(self@ == (StateV {
                heap: heap_set_field(old(self)@.heap, id as int, k@, v@),
                ..old(self)@
            }));
            lemma_wf_set_field(old(self)@, self@, id as int, k@, v@);
        }
    }
}

pub open spec fn k_console() -> Seq<u8> {
    seq![99u8, 111u8, 110u8, 115u8, 111u8, 108u8, 101u8]
}

pub open spec fn k_math() -> Seq<u8> {
    seq![77u8, 97u8, 116u8, 104u8]
}

pub open spec fn k_function() -> Seq<u8> {
    seq![70u8, 117u8, 110u8, 99u8, 116u8, 105u8, 111u8, 110u8]
}

pub open spec fn k_json() -> Seq<u8> {
    seq![74u8, 83u8, 79u8, 78u8]
}

pub open spec fn k_number() -> Seq<u8> {
    seq![78u8, 117u8, 109u8, 98u8, 101u8, 114u8]
}

pub open spec fn k_error() -> Seq<u8> {
    seq![69u8, 114u8, 114u8, 111u8, 114u8]
}

pub open spec fn k_log() -> Seq<u8> {
    seq![108u8, 111u8, 103u8]
}

pub open spec fn k_max() -> Seq<u8> {
    seq![109u8, 97u8, 120u8]
}

/// The value of a literal constant. An integer constant is lifted to a
/// Number, a regular-expression literal is a placeholder.
pub open spec fn const_val(c: Const) -> ValueV {
    match c {
        Const::CNull => ValueV::Null,
        Const::CUndefined => ValueV::Undefined,
        Const::CNum(b) => ValueV::Number(b),
        Const::CInt(i) => ValueV::Number(bits_of_i53(i as int)),
        Const::CString(s) => ValueV::StringVal(s@),
        Const::CBool(b) => ValueV::Boolean(b),
        Const::CRegExp(_, _, _) => ValueV::Boolean(true),
    }
}

/// Evaluated call arguments, or the abrupt outcome that stopped them.
pub enum ArgsV {
    Done(Seq<ValueV>),
    Abrupt(OutcomeV),
}

/// The scope entries that bind formal parameters to actuals: extras are
/// dropped, missing actuals bind Undefined.
pub open spec fn bind_params(
    acc: Seq<(Seq<u8>, ValueV)>,
    params: Seq<Seq<u8>>,
    args: Seq<ValueV>,
    i: int,
) -> Seq<(Seq<u8>, ValueV)>
    decreases params.len() - i,
{
    if i < 0 || i >= params.len() {
        acc
    } else {
        let av = if i < args.len() {
            args[i]
        } else {
            ValueV::Undefined
        };
        bind_params(set_entries(acc, params[i], av), params, args, i + 1)
    }
}

/// One output line of `console.log`: the arguments, space-separated, then a
/// newline.
pub open spec fn console_join(args: Seq<ValueV>, i: int) -> Seq<u8>
    decreases args.len() - i,
{
    if i < 0 || i >= args.len() {
        seq![10u8]
    } else {
        to_str_v(args[i]) + (if i + 1 < args.len() {
            seq![32u8]
        } else {
            Seq::<u8>::empty()
        }) + console_join(args, i + 1)
    }
}

/// The fold of `Math.max`: NaN is sticky, the start is negative infinity.
pub open spec fn max_fold(args: Seq<ValueV>, i: int, acc: u64) -> u64
    decreases args.len() - i,
{
    if i < 0 || i >= args.len() {
        acc
    } else {
        let n = to_num_v(args[i]);
        let acc2 = if d_is_nan(acc) || d_is_nan(n) {
            NAN_BITS
        } else if d_lt(acc, n) {
            n
        } else {
            acc
        };
        max_fold(args, i + 1, acc2)
    }
}

/// The length slot an array literal gets.
pub open spec fn arr_len_val(n: nat) -> ValueV {
    if n < 0x8000_0000 {
        ValueV::Integer(n as i32)
    } else {
        ValueV::Number(dbl_of_u128(n as u128))
    }
}

/// Evaluate an expression: the next state and the outcome. Fuel bounds the
/// depth of the evaluation; at zero the outcome is `Exhausted`.
pub open spec fn eval(s: StateV, e: Expr, f: nat) -> (StateV, OutcomeV)
    decreases f, 2int, 0int,
{
    if f == 0 {
        (s, OutcomeV::Exhausted)
    } else {
        match e {
            Expr::ConstExpr(c) => (s, OutcomeV::Normal(const_val(c))),
            Expr::BlockExpr(es) => eval_block(s, es@, 0, ValueV::Null, (f - 1) as nat),
            Expr::LocalExpr(name) => (s, OutcomeV::Normal(local_get(s, name@))),
            Expr::GetConstFieldExpr(oe, field) => {
                let (s1, o1) = eval(s, *oe, (f - 1) as nat);
                match o1 {
                    OutcomeV::Normal(ov) => (
                        s1,
                        OutcomeV::Normal(get_field_of_value(s1, ov, field@)),
                    ),
                    _ => (s1, o1),
                }
            },
            Expr::GetFieldExpr(oe, fe) => {
                let (s1, o1) = eval(s, *oe, (f - 1) as nat);
                match o1 {
                    OutcomeV::Normal(ov) => {
                        let (s2, o2) = eval(s1, *fe, (f - 1) as nat);
                        match o2 {
                            OutcomeV::Normal(kv) => (
                                s2,
                                OutcomeV::Normal(get_field_of_value(s2, ov, to_str_v(kv))),
                            ),
                            _ => (s2, o2),
                        }
                    },
                    _ => (s1, o1),
                }
            },
            Expr::CallExpr(callee, args) => {
                match *callee {
                    Expr::GetConstFieldExpr(oe, field) => {
                        let (s1, o1) = eval(s, *oe, (f - 1) as nat);
                        match o1 {
                            OutcomeV::Normal(this_v) => {
                                let func = get_field_of_value(s1, this_v, field@);
                                eval_call_with(s1, func, this_v, args@, f)
                            },
                            _ => (s1, o1),
                        }
                    },
                    Expr::GetFieldExpr(oe, fe) => {
                        let (s1, o1) = eval(s, *oe, (f - 1) as nat);
                        match o1 {
                            OutcomeV::Normal(this_v) => {
                                let (s2, o2) = eval(s1, *fe, (f - 1) as nat);
                                match o2 {
                                    OutcomeV::Normal(kv) => {
                                        let func = get_field_of_value(s2, this_v, to_str_v(kv));
                                        eval_call_with(s2, func, this_v, args@, f)
                                    },
                                    _ => (s2, o2),
                                }
                            },
                            _ => (s1, o1),
                        }
                    },
                    _ => {
                        let (s1, o1) = eval(s, *callee, (f - 1) as nat);
                        match o1 {
                            OutcomeV::Normal(func) => eval_call_with(
                                s1,
                                func,
                                ValueV::Object(s1.global),
                                args@,
                                f,
                            ),
                            _ => (s1, o1),
                        }
                    },
                }
            },
            Expr::WhileLoopExpr(cond, body) => eval_while(
                s,
                *cond,
                *body,
                ValueV::Undefined,
                (f - 1) as nat,
            ),
            Expr::IfExpr(cond, then_e, else_e) => {
                let (s1, o1) = eval(s, *cond, (f - 1) as nat);
                match o1 {
                    OutcomeV::Normal(cv) => if is_truthy(cv) {
                        eval(s1, *then_e, (f - 1) as nat)
                    } else {
                        match else_e {
                            Some(ee) => eval(s1, *ee, (f - 1) as nat),
                            None => (s1, OutcomeV::Normal(ValueV::Undefined)),
                        }
                    },
                    _ => (s1, o1),
                }
            },
            Expr::SwitchExpr(de, cases, default) => {
                let (s1, o1) = eval(s, *de, (f - 1) as nat);
                match o1 {
                    OutcomeV::Normal(dv) => eval_cases(
                        s1,
                        dv,
                        cases@,
                        0,
                        ValueV::Null,
                        false,
                        default,
                        (f - 1) as nat,
                    ),
                    _ => (s1, o1),
                }
            },
            Expr::ObjectDeclExpr(fields) => {
                let id = s.heap.len() as int;
                let s1 = StateV { heap: s.heap.push(Seq::empty()), ..s };
                eval_fields(s1, id, fields@, 0, (f - 1) as nat)
            },
            Expr::ArrayDeclExpr(elems) => {
                let id = s.heap.len() as int;
                let s1 = StateV { heap: s.heap.push(Seq::empty()), ..s };
                eval_elems(s1, id, elems@, 0, (f - 1) as nat)
            },
            Expr::FunctionDeclExpr(name, params, body) => {
                let pid = s.heap.len() as int;
                let s1 = StateV { heap: s.heap.push(Seq::empty()), ..s };
                let fid = s1.funcs.len() as int;
                let fv = FuncV::Regular {
                    params: params@.map(|i: int, p: Vec<u8>| p@),
                    body: *body,
                    captured: s1.stack,
                    props: pid,
                };
                let s2 = StateV { funcs: s1.funcs.push(fv), ..s1 };
                let s3 = match name {
                    Some(n) => StateV {
                        heap: heap_set_field(s2.heap, s2.global, n@, ValueV::Function(fid)),
                        ..s2
                    },
                    None => s2,
                };
                (s3, OutcomeV::Normal(ValueV::Function(fid)))
            },
            Expr::NumOpExpr(op, ae, be) => {
                let (s1, o1) = eval(s, *ae, (f - 1) as nat);
                match o1 {
                    OutcomeV::Normal(av) => {
                        let (s2, o2) = eval(s1, *be, (f - 1) as nat);
                        match o2 {
                            OutcomeV::Normal(bv) => (s2, OutcomeV::Normal(num_op_v(op, av, bv))),
                            _ => (s2, o2),
                        }
                    },
                    _ => (s1, o1),
                }
            },
            Expr::BitOpExpr(op, ae, be) => {
                let (s1, o1) = eval(s, *ae, (f - 1) as nat);
                match o1 {
                    OutcomeV::Normal(av) => {
                        let (s2, o2) = eval(s1, *be, (f - 1) as nat);
                        match o2 {
                            OutcomeV::Normal(bv) => (s2, OutcomeV::Normal(bit_op_v(op, av, bv))),
                            _ => (s2, o2),
                        }
                    },
                    _ => (s1, o1),
                }
            },
            Expr::CompOpExpr(op, ae, be) => {
                let (s1, o1) = eval(s, *ae, (f - 1) as nat);
                match o1 {
                    OutcomeV::Normal(av) => {
                        let (s2, o2) = eval(s1, *be, (f - 1) as nat);
                        match o2 {
                            OutcomeV::Normal(bv) => (s2, OutcomeV::Normal(comp_op_v(op, av, bv))),
                            _ => (s2, o2),
                        }
                    },
                    _ => (s1, o1),
                }
            },
            Expr::ConstructExpr(callee, args) => {
                let (s1, o1) = eval(s, *callee, (f - 1) as nat);
                match o1 {
                    OutcomeV::Normal(fv) => {
                        match eval_args(s1, args@, 0, Seq::empty(), (f - 1) as nat) {
                            (s2, ArgsV::Done(argv)) => {
                                let tid = s2.heap.len() as int;
                                let s3 = StateV { heap: s2.heap.push(Seq::empty()), ..s2 };
                                let protov = get_field_of_value(s3, fv, k_prototype());
                                let s4 = StateV {
                                    heap: heap_set_field(s3.heap, tid, k_proto(), protov),
                                    ..s3
                                };
                                match fv {
                                    ValueV::Function(fid) => {
                                        let (s5, o5) = eval_call(
                                            s4,
                                            fid,
                                            ValueV::Object(tid),
                                            argv,
                                            (f - 1) as nat,
                                        );
                                        match o5 {
                                            OutcomeV::Normal(_) => (
                                                s5,
                                                OutcomeV::Normal(ValueV::Object(tid)),
                                            ),
                                            _ => (s5, o5),
                                        }
                                    },
                                    _ => (s4, OutcomeV::Normal(ValueV::Undefined)),
                                }
                            },
                            (s2, ArgsV::Abrupt(o2)) => (s2, o2),
                        }
                    },
                    _ => (s1, o1),
                }
            },
            Expr::ReturnExpr(ret) => {
                match ret {
                    Some(re) => {
                        let (s1, o1) = eval(s, *re, (f - 1) as nat);
                        match o1 {
                            OutcomeV::Normal(v) => (s1, OutcomeV::Returned(v)),
                            _ => (s1, o1),
                        }
                    },
                    None => (s, OutcomeV::Returned(ValueV::Undefined)),
                }
            },
            Expr::ThrowExpr(ex) => {
                let (s1, o1) = eval(s, *ex, (f - 1) as nat);
                match o1 {
                    OutcomeV::Normal(v) => (s1, OutcomeV::Thrown(v)),
                    _ => (s1, o1),
                }
            },
            Expr::AssignExpr(ref_e, val_e) => {
                let (s1, o1) = eval(s, *val_e, (f - 1) as nat);
                match o1 {
                    OutcomeV::Normal(v) => {
                        match *ref_e {
                            Expr::LocalExpr(name) => {
                                match scope_set_from(s1, name@, v, s1.stack.len() as int) {
                                    Some(s2) => (s2, OutcomeV::Normal(v)),
                                    None => (
                                        StateV {
                                            heap: heap_set_field(s1.heap, s1.global, name@, v),
                                            ..s1
                                        },
                                        OutcomeV::Normal(v),
                                    ),
                                }
                            },
                            Expr::GetConstFieldExpr(oe, field) => {
                                let (s2, o2) = eval(s1, *oe, (f - 1) as nat);
                                match o2 {
                                    OutcomeV::Normal(ov) => (
                                        set_field_on_value(s2, ov, field@, v),
                                        OutcomeV::Normal(v),
                                    ),
                                    _ => (s2, o2),
                                }
                            },
                            Expr::GetFieldExpr(oe, fe) => {
                                let (s2, o2) = eval(s1, *oe, (f - 1) as nat);
                                match o2 {
                                    OutcomeV::Normal(ov) => {
                                        let (s3, o3) = eval(s2, *fe, (f - 1) as nat);
                                        match o3 {
                                            OutcomeV::Normal(kv) => (
                                                set_field_on_value(s3, ov, to_str_v(kv), v),
                                                OutcomeV::Normal(v),
                                            ),
                                            _ => (s3, o3),
                                        }
                                    },
                                    _ => (s2, o2),
                                }
                            },
                            _ => (s1, OutcomeV::Normal(v)),
                        }
                    },
                    _ => (s1, o1),
                }
            },
        }
    }
}

/// Evaluate a block's children left to right; the value is the last
/// child's, or `last` where none remain.
pub open spec fn eval_block(
    s: StateV,
    es: Seq<Expr>,
    i: int,
    last: ValueV,
    f: nat,
) -> (StateV, OutcomeV)
    decreases f, 1int, es.len() - i,
{
    if i < 0 || i >= es.len() {
        (s, OutcomeV::Normal(last))
    } else if f == 0 {
        (s, OutcomeV::Exhausted)
    } else {
        let (s1, o1) = eval(s, es[i], (f - 1) as nat);
        match o1 {
            OutcomeV::Normal(v) => eval_block(s1, es, i + 1, v, (f - 1) as nat),
            _ => (s1, o1),
        }
    }
}

/// Evaluate call arguments left to right.
pub open spec fn eval_args(
    s: StateV,
    es: Seq<Expr>,
    i: int,
    acc: Seq<ValueV>,
    f: nat,
) -> (StateV, ArgsV)
    decreases f, 1int, es.len() - i,
{
    if i < 0 || i >= es.len() {
        (s, ArgsV::Done(acc))
    } else if f == 0 {
        (s, ArgsV::Abrupt(OutcomeV::Exhausted))
    } else {
        let (s1, o1) = eval(s, es[i], (f - 1) as nat);
        match o1 {
            OutcomeV::Normal(v) => eval_args(s1, es, i + 1, acc.push(v), (f - 1) as nat),
            _ => (s1, ArgsV::Abrupt(o1)),
        }
    }
}

/// Evaluate the arguments, then call the callee; a non-function callee is
/// Thrown(Undefined).
pub open spec fn eval_call_with(
    s: StateV,
    func: ValueV,
    this: ValueV,
    args: Seq<Expr>,
    f: nat,
) -> (StateV, OutcomeV)
    decreases f, 1int, 0int,
{
    if f == 0 {
        (s, OutcomeV::Exhausted)
    } else {
        match eval_args(s, args, 0, Seq::empty(), (f - 1) as nat) {
            (s1, ArgsV::Done(argv)) => {
                match func {
                    ValueV::Function(fid) => eval_call(s1, fid, this, argv, (f - 1) as nat),
                    _ => (s1, OutcomeV::Thrown(ValueV::Undefined)),
                }
            },
            (s1, ArgsV::Abrupt(o1)) => (s1, o1),
        }
    }
}

/// Call a function by id: a native runs its host behaviour; a regular
/// function runs its body in a fresh scope pushed on its captured chain,
/// with `this` bound, and a `Returned` signal becomes the call's value.
pub open spec fn eval_call(
    s: StateV,
    fid: int,
    this: ValueV,
    args: Seq<ValueV>,
    f: nat,
) -> (StateV, OutcomeV)
    decreases f, 0int, 0int,
{
    if !(0 <= fid < s.funcs.len()) {
        (s, OutcomeV::Thrown(ValueV::Undefined))
    } else {
        match s.funcs[fid] {
            FuncV::Native { kind, .. } => {
                match kind {
                    NativeFunc::ConsoleLog => (
                        StateV { out: s.out + console_join(args, 0), ..s },
                        OutcomeV::Normal(ValueV::Undefined),
                    ),
                    NativeFunc::MathMax => (
                        s,
                        OutcomeV::Normal(ValueV::Number(max_fold(args, 0, NEG_INF_BITS))),
                    ),
                }
            },
            FuncV::Regular { params, body, captured, .. } => {
                if f == 0 {
                    (s, OutcomeV::Exhausted)
                } else {
                    let scope0 = bind_params(Seq::empty(), params, args, 0);
                    let scope1 = set_entries(scope0, k_this(), this);
                    let sid = s.scope_store.len() as int;
                    let s1 = StateV {
                        scope_store: s.scope_store.push(scope1),
                        stack: captured.push(sid),
                        ..s
                    };
                    let (s2, o) = eval(s1, body, (f - 1) as nat);
                    let s3 = StateV { stack: s.stack, ..s2 };
                    match o {
                        OutcomeV::Returned(v) => (s3, OutcomeV::Normal(v)),
                        _ => (s3, o),
                    }
                }
            },
        }
    }
}

/// Evaluate the condition, then the body, while the condition holds; the
/// value is the last body value, or Undefined if the body never ran.
pub open spec fn eval_while(
    s: StateV,
    cond: Expr,
    body: Expr,
    last: ValueV,
    f: nat,
) -> (StateV, OutcomeV)
    decreases f, 1int, 0int,
{
    if f == 0 {
        (s, OutcomeV::Exhausted)
    } else {
        let (s1, o1) = eval(s, cond, (f - 1) as nat);
        match o1 {
            OutcomeV::Normal(cv) => if !is_truthy(cv) {
                (s1, OutcomeV::Normal(last))
            } else {
                let (s2, o2) = eval(s1, body, (f - 1) as nat);
                match o2 {
                    OutcomeV::Normal(bv) => eval_while(s2, cond, body, bv, (f - 1) as nat),
                    _ => (s2, o2),
                }
            },
            _ => (s1, o1),
        }
    }
}

/// Walk the switch cases in source order: every case expression whose value
/// equals the discriminant runs its block; if none matched, the default
/// runs.
pub open spec fn eval_cases(
    s: StateV,
    dv: ValueV,
    cases: Seq<(Expr, Vec<Expr>)>,
    i: int,
    result: ValueV,
    matched: bool,
    default: Option<Box<Expr>>,
    f: nat,
) -> (StateV, OutcomeV)
    decreases f, 1int, cases.len() - i,
{
    if i < 0 || i >= cases.len() {
        if !matched {
            match default {
                Some(d) => if f == 0 {
                    (s, OutcomeV::Exhausted)
                } else {
                    eval(s, *d, (f - 1) as nat)
                },
                None => (s, OutcomeV::Normal(result)),
            }
        } else {
            (s, OutcomeV::Normal(result))
        }
    } else if f == 0 {
        (s, OutcomeV::Exhausted)
    } else {
        let (s1, o1) = eval(s, cases[i].0, (f - 1) as nat);
        match o1 {
            OutcomeV::Normal(cv) => if val_eq(dv, cv) {
                let (s2, o2) = eval_block(s1, cases[i].1@, 0, result, (f - 1) as nat);
                match o2 {
                    OutcomeV::Normal(r2) => eval_cases(
                        s2,
                        dv,
                        cases,
                        i + 1,
                        r2,
                        true,
                        default,
                        (f - 1) as nat,
                    ),
                    _ => (s2, o2),
                }
            } else {
                eval_cases(s1, dv, cases, i + 1, result, matched, default, (f - 1) as nat)
            },
            _ => (s1, o1),
        }
    }
}

/// Fill an object literal: each field in order, then the `__proto__` link to
/// `Object.prototype`.
pub open spec fn eval_fields(
    s: StateV,
    id: int,
    fields: Seq<(Vec<u8>, Expr)>,
    i: int,
    f: nat,
) -> (StateV, OutcomeV)
    decreases f, 1int, fields.len() - i,
{
    if i < 0 || i >= fields.len() {
        let objv = heap_get_field(s.heap, s.global, k_object());
        let protov = get_field_of_value(s, objv, k_prototype());
        let s1 = StateV { heap: heap_set_field(s.heap, id, k_proto(), protov), ..s };
        (s1, OutcomeV::Normal(ValueV::Object(id)))
    } else if f == 0 {
        (s, OutcomeV::Exhausted)
    } else {
        let (s1, o1) = eval(s, fields[i].1, (f - 1) as nat);
        match o1 {
            OutcomeV::Normal(v) => {
                let s2 = StateV { heap: heap_set_field(s1.heap, id, fields[i].0@, v), ..s1 };
                eval_fields(s2, id, fields, i + 1, (f - 1) as nat)
            },
            _ => (s1, o1),
        }
    }
}

/// Fill an array literal: each element at its stringified index, then the
/// `__proto__` link to `Array.prototype` and the `length` slot.
pub open spec fn eval_elems(
    s: StateV,
    id: int,
    elems: Seq<Expr>,
    i: int,
    f: nat,
) -> (StateV, OutcomeV)
    decreases f, 1int, elems.len() - i,
{
    if i < 0 || i >= elems.len() {
        let arrv = heap_get_field(s.heap, s.global, k_array());
        let protov = get_field_of_value(s, arrv, k_prototype());
        let s1 = StateV { heap: heap_set_field(s.heap, id, k_proto(), protov), ..s };
        let s2 = StateV {
            heap: heap_set_field(s1.heap, id, k_length(), arr_len_val(elems.len())),
            ..s1
        };
        (s2, OutcomeV::Normal(ValueV::Object(id)))
    } else if f == 0 {
        (s, OutcomeV::Exhausted)
    } else {
        let (s1, o1) = eval(s, elems[i], (f - 1) as nat);
        match o1 {
            OutcomeV::Normal(v) => {
                let s2 = StateV {
                    heap: heap_set_field(s1.heap, id, crate::dbl::dec_str(i as nat), v),
                    ..s1
                };
                eval_elems(s2, id, elems, i + 1, (f - 1) as nat)
            },
            _ => (s1, o1),
        }
    }
}

/// Pushing an empty object keeps the state well-formed.
proof fn lemma_wf_push_obj(a: StateV, b: StateV)
    requires
        wf(a),
        b == (StateV { heap: a.heap.push(Seq::empty()), ..a }),
    ensures
        wf(b),
{
    assert forall|i: int| 0 <= i < b.heap.len() implies entries_ok(#[trigger] b.heap[i], b) by {
        if i < a.heap.len() {
            assert(b.heap[i] == a.heap[i]);
            assert(entries_ok(a.heap[i], a));
            assert forall|j: int| 0 <= j < b.heap[i].len() implies val_ok(
                (#[trigger] b.heap[i][j]).1,
                b,
            ) by {
                assert(val_ok(a.heap[i][j].1, a));
            }
        } else {
            assert(b.heap[i] =~= Seq::<(Seq<u8>, ValueV)>::empty());
        }
    }
    assert forall|i: int| 0 <= i < b.scope_store.len() implies entries_ok(
        #[trigger] b.scope_store[i],
        b,
    ) by {
        assert(entries_ok(a.scope_store[i], a));
        assert forall|j: int| 0 <= j < b.scope_store[i].len() implies val_ok(
            (#[trigger] b.scope_store[i][j]).1,
            b,
        ) by {
            assert(val_ok(a.scope_store[i][j].1, a));
        }
    }
    assert forall|i: int| 0 <= i < b.funcs.len() implies func_ok(#[trigger] b.funcs[i], b) by {
        assert(func_ok(a.funcs[i], a));
    }
}

/// Writing a valid value to a field keeps the state well-formed.
proof fn lemma_wf_set_field(a: StateV, b: StateV, id: int, k: Seq<u8>, v: ValueV)
    requires
        wf(a),
        0 <= id < a.heap.len(),
        val_ok(v, a),
        b == (StateV { heap: heap_set_field(a.heap, id, k, v), ..a }),
    ensures
        wf(b),
{
    lemma_set_from_membership(a.heap[id], k, v, 0);
    assert forall|i: int| 0 <= i < b.heap.len() implies entries_ok(#[trigger] b.heap[i], b) by {
        if i == id {
            assert forall|j: int| 0 <= j < b.heap[i].len() implies val_ok(
                (#[trigger] b.heap[i][j]).1,
                b,
            ) by {
                assert(b.heap[i] == set_entries(a.heap[id], k, v));
                if b.heap[i][j] == (k, v) {
                } else {
                    assert(a.heap[id].contains(b.heap[i][j]));
                    let l = choose|l: int|
                        0 <= l < a.heap[id].len() && a.heap[id][l] == b.heap[i][j];
                    assert(val_ok(a.heap[id][l].1, a));
                }
            }
        } else {
            assert(b.heap[i] == a.heap[i]);
            assert(entries_ok(a.heap[i], a));
            assert forall|j: int| 0 <= j < b.heap[i].len() implies val_ok(
                (#[trigger] b.heap[i][j]).1,
                b,
            ) by {
                assert(val_ok(a.heap[i][j].1, a));
            }
        }
    }
    assert forall|i: int| 0 <= i < b.scope_store.len() implies entries_ok(
        #[trigger] b.scope_store[i],
        b,
    ) by {
        assert(entries_ok(a.scope_store[i], a));
        assert forall|j: int| 0 <= j < b.scope_store[i].len() implies val_ok(
            (#[trigger] b.scope_store[i][j]).1,
            b,
        ) by {
            assert(val_ok(a.scope_store[i][j].1, a));
        }
    }
    assert forall|i: int| 0 <= i < b.funcs.len() implies func_ok(#[trigger] b.funcs[i], b) by {
        assert(func_ok(a.funcs[i], a));
    }
}

/// The views of a vector of values.
pub open spec fn vals_of(args: Seq<Value>) -> Seq<ValueV> {
    args.map(|i: int, v: Value| v@)
}

/// All values of a vector point into the state's stores.
pub open spec fn vals_ok(args: Seq<ValueV>, s: StateV) -> bool {
    forall|j: int| 0 <= j < args.len() ==> val_ok(#[trigger] args[j], s)
}

/// Pushing a function whose handles are valid keeps the state well-formed.
proof fn lemma_wf_push_func(a: StateV, b: StateV, fv: FuncV)
    requires
        wf(a),
        func_ok(fv, a),
        b == (StateV { funcs: a.funcs.push(fv), ..a }),
    ensures
        wf(b),
{
    assert forall|i: int| 0 <= i < b.heap.len() implies entries_ok(#[trigger] b.heap[i], b) by {
        assert(entries_ok(a.heap[i], a));
        assert forall|j: int| 0 <= j < b.heap[i].len() implies val_ok(
            (#[trigger] b.heap[i][j]).1,
            b,
        ) by {
            assert(val_ok(a.heap[i][j].1, a));
        }
    }
    assert forall|i: int| 0 <= i < b.scope_store.len() implies entries_ok(
        #[trigger] b.scope_store[i],
        b,
    ) by {
        assert(entries_ok(a.scope_store[i], a));
        assert forall|j: int| 0 <= j < b.scope_store[i].len() implies val_ok(
            (#[trigger] b.scope_store[i][j]).1,
            b,
        ) by {
            assert(val_ok(a.scope_store[i][j].1, a));
        }
    }
    assert forall|i: int| 0 <= i < b.funcs.len() implies func_ok(#[trigger] b.funcs[i], b) by {
        if i < a.funcs.len() {
            assert(func_ok(a.funcs[i], a));
        }
    }
}

/// Pushing a well-formed scope keeps the state well-formed.
proof fn lemma_wf_push_scope(a: StateV, b: StateV, sc: Seq<(Seq<u8>, ValueV)>)
    requires
        wf(a),
        entries_ok(sc, a),
        b.heap == a.heap,
        b.funcs == a.funcs,
        b.scope_store == a.scope_store.push(sc),
        b.global == a.global,
        forall|i: int| 0 <= i < b.stack.len() ==> 0 <= #[trigger] b.stack[i] < b.scope_store.len(),
    ensures
        wf(b),
{
    assert forall|i: int| 0 <= i < b.heap.len() implies entries_ok(#[trigger] b.heap[i], b) by {
        assert(entries_ok(a.heap[i], a));
        assert forall|j: int| 0 <= j < b.heap[i].len() implies val_ok(
            (#[trigger] b.heap[i][j]).1,
            b,
        ) by {
            assert(val_ok(a.heap[i][j].1, a));
        }
    }
    assert forall|i: int| 0 <= i < b.scope_store.len() implies entries_ok(
        #[trigger] b.scope_store[i],
        b,
    ) by {
        if i < a.scope_store.len() {
            assert(b.scope_store[i] == a.scope_store[i]);
            assert(entries_ok(a.scope_store[i], a));
            assert forall|j: int| 0 <= j < b.scope_store[i].len() implies val_ok(
                (#[trigger] b.scope_store[i][j]).1,
                b,
            ) by {
                assert(val_ok(a.scope_store[i][j].1, a));
            }
        } else {
            assert(b.scope_store[i] == sc);
            assert forall|j: int| 0 <= j < b.scope_store[i].len() implies val_ok(
                (#[trigger] b.scope_store[i][j]).1,
                b,
            ) by {
                assert(val_ok(sc[j].1, a));
            }
        }
    }
    assert forall|i: int| 0 <= i < b.funcs.len() implies func_ok(#[trigger] b.funcs[i], b) by {
        assert(func_ok(a.funcs[i], a));
    }
}

/// Replacing one scope's entries with valid ones keeps the state
/// well-formed, as does changing the stack to valid ids.
proof fn lemma_wf_scopes_stack(a: StateV, b: StateV)
    requires
        wf(a),
        b.heap == a.heap,
        b.funcs == a.funcs,
        b.global == a.global,
        b.scope_store.len() >= a.scope_store.len(),
        forall|i: int|
            0 <= i < b.scope_store.len() ==> entries_ok(#[trigger] b.scope_store[i], a),
        forall|i: int| 0 <= i < b.stack.len() ==> 0 <= #[trigger] b.stack[i] < b.scope_store.len(),
    ensures
        wf(b),
{
    assert forall|i: int| 0 <= i < b.heap.len() implies entries_ok(#[trigger] b.heap[i], b) by {
        assert(entries_ok(a.heap[i], a));
        assert forall|j: int| 0 <= j < b.heap[i].len() implies val_ok(
            (#[trigger] b.heap[i][j]).1,
            b,
        ) by {
            assert(val_ok(a.heap[i][j].1, a));
        }
    }
    assert forall|i: int| 0 <= i < b.scope_store.len() implies entries_ok(
        #[trigger] b.scope_store[i],
        b,
    ) by {
        assert(entries_ok(b.scope_store[i], a));
        assert forall|j: int| 0 <= j < b.scope_store[i].len() implies val_ok(
            (#[trigger] b.scope_store[i][j]).1,
            b,
        ) by {
            assert(val_ok(b.scope_store[i][j].1, a));
        }
    }
    assert forall|i: int| 0 <= i < b.funcs.len() implies func_ok(#[trigger] b.funcs[i], b) by {
        assert(func_ok(a.funcs[i], a));
    }
}

/// Copy a vector of scope ids.
fn dup_ids(v: &Vec<usize>) -> (r: Vec<usize>)
    ensures
        r@ == v@,
{
    let mut r: Vec<usize> = Vec::new();
    let mut i: usize = 0;
    while i < v.len()
        invariant
            i <= v.len(),
            r@ == v@.subrange(0, i as int),
        decreases v.len() - i,
    {
        r.push(v[i]);
        i = i + 1;
        proof {
            assert(r@ =~= v@.subrange(0, i as int));
        }
    }
    proof {
        assert(r@ =~= v@);
    }
    r
}

impl Interpreter {
    /// Read a field of any value.
    fn get_field_value(&self, v: &Value, k: &Vec<u8>) -> (r: Value)
        requires
            wf(self@),
            val_ok(v@, self@),
        ensures
            r@ == get_field_of_value(self@, v@, k@),
            val_ok(r@, self@),
    {
        match v {
            Value::Object(id) => self.heap_get(*id, k),
            Value::Function(fid) => {
                let props = self.funcs[*fid].props;
                proof {
                    assert(self@.funcs[*fid as int] == self.funcs@[*fid as int]@);
                    assert(func_ok(self@.funcs[*fid as int], self@));
                    assert(props_of(self@.funcs[*fid as int]) == props as int);
                }
                self.heap_get(props, k)
            },
            _ => Value::Undefined,
        }
    }

    /// Write a field of any value; a write to a non-object is dropped.
    fn set_field_value(&mut self, v: &Value, k: Vec<u8>, val: Value)
        requires
            wf(old(self)@),
            val_ok(v@, old(self)@),
            val_ok(val@, old(self)@),
        ensures
            wf(final(self)@),
            final(self)@ == set_field_on_value(old(self)@, v@, k@, val@),
            grows(old(self)@, final(self)@),
    {
        match v {
            Value::Object(id) => {
                self.heap_set(*id, k, val);
            },
            Value::Function(fid) => {
                let props = self.funcs[*fid].props;
                proof {
                    assert(self@.funcs[*fid as int] == self.funcs@[*fid as int]@);
                    assert(func_ok(self@.funcs[*fid as int], self@));
                    assert(props_of(self@.funcs[*fid as int]) == props as int);
                }
                self.heap_set(props, k, val);
            },
            _ => {},
        }
    }

    /// Read a local name: the scope stack, then the global object.
    fn local_get_exec(&self, n: &Vec<u8>) -> (r: Value)
        requires
            wf(self@),
        ensures
            r@ == local_get(self@, n@),
            val_ok(r@, self@),
    {
        let mut i = self.scope_stack.len();
        while i > 0
            invariant
                wf(self@),
                i <= self.scope_stack.len(),
                scope_lookup(self@, n@, self@.stack.len() as int) == scope_lookup(
                    self@,
                    n@,
                    i as int,
                ),
            decreases i,
        {
            let sid = self.scope_stack[i - 1];
            proof {
                assert(self@.stack[i - 1] == sid as int);
                assert(0 <= self@.stack[i - 1] < self@.scope_store.len());
                assert(self@.scope_store[sid as int] == self.scope_store@[sid as int]@);
            }
            match self.scope_store[sid].get(n) {
                Some(v) => {
                    proof {
                        lemma_lookup_from_membership(self@.scope_store[sid as int], n@, 0);
                        assert(entries_ok(self@.scope_store[sid as int], self@));
                    }
                    return v;
                },
                None => {
                    i = i - 1;
                },
            }
        }
        self.heap_get(self.global, n)
    }

    /// Assign to the nearest scope that binds the name; false if none does.
    fn scope_assign(&mut self, n: &Vec<u8>, v: &Value) -> (r: bool)
        requires
            wf(old(self)@),
            val_ok(v@, old(self)@),
        ensures
            wf(final(self)@),
            grows(old(self)@, final(self)@),
            match scope_set_from(old(self)@, n@, v@, old(self)@.stack.len() as int) {
                Some(s2) => r && final(self)@ == s2,
                None => !r && final(self)@ == old(self)@,
            },
    {
        let mut i = self.scope_stack.len();
        while i > 0
            invariant
                wf(self@),
                self@ == old(self)@,
                val_ok(v@, self@),
                i <= self.scope_stack.len(),
                scope_set_from(self@, n@, v@, self@.stack.len() as int) == scope_set_from(
                    self@,
                    n@,
                    v@,
                    i as int,
                ),
            decreases i,
        {
            let sid = self.scope_stack[i - 1];
            proof {
                assert(self@.stack[i - 1] == sid as int);
                assert(0 <= self@.stack[i - 1] < self@.scope_store.len());
                assert(self@.scope_store[sid as int] == self.scope_store@[sid as int]@);
            }
            let found = self.scope_store[sid].get(n).is_some();
            if found {
                let mut o = self.scope_store.remove(sid);
                o.set(dup_bytes(n), v.duplicate());
                self.scope_store.insert(sid, o);
                proof {
                    assert(self@.scope_store =~~= old(self)@.scope_store.update(
                        sid as int,
                        set_entries(old(self)@.scope_store[sid as int], n@, v@),
                    ));
                    assert(self@ == (StateV {
                        scope_store: old(self)@.scope_store.update(
                            sid as int,
                            set_entries(old(self)@.scope_store[sid as int], n@, v@),
                        ),
                        ..old(self)@
                    }));
                    lemma_set_from_membership(old(self)@.scope_store[sid as int], n@, v@, 0);
                    assert forall|l: int|
                        0 <= l < self@.scope_store.len() implies entries_ok(
                        #[trigger] self@.scope_store[l],
                        old(self)@,
                    ) by {
                        if l == sid as int {
                            assert forall|j: int|
                                0 <= j < self@.scope_store[l].len() implies val_ok(
                                (#[trigger] self@.scope_store[l][j]).1,
                                old(self)@,
                            ) by {
                                let es = old(self)@.scope_store[sid as int];
                                if self@.scope_store[l][j] == (n@, v@) {
                                } else {
                                    assert(es.contains(self@.scope_store[l][j]));
                                    let m = choose|m: int|
                                        0 <= m < es.len() && es[m] == self@.scope_store[l][j];
                                    assert(val_ok(es[m].1, old(self)@));
                                }
                            }
                        } else {
                            assert(self@.scope_store[l] == old(self)@.scope_store[l]);
                            assert(entries_ok(old(self)@.scope_store[l], old(self)@));
                        }
                    }
                    lemma_wf_scopes_stack(old(self)@, self@);
                }
                return true;
            }
            i = i - 1;
        }
        false
    }

    /// Push a function record and hand back its id.
    fn alloc_func(&mut self, rec: FunctionRecord) -> (fid: usize)
        requires
            wf(old(self)@),
            func_ok(rec@, old(self)@),
        ensures
            wf(final(self)@),
            final(self)@ == (StateV { funcs: old(self)@.funcs.push(rec@), ..old(self)@ }),
            fid == old(self)@.funcs.len(),
            grows(old(self)@, final(self)@),
    {
        let ghost rv = rec@;
        let fid = self.funcs.len();
        self.funcs.push(rec);
        proof {
            assert(self@.funcs =~~= old(self)@.funcs.push(rv));
            assert(self@ == (StateV { funcs: old(self)@.funcs.push(rv), ..old(self)@ }));
            lemma_wf_push_func(old(self)@, self@, rv);
        }
        fid
    }

    /// Make a new scope: push it on the store and its id on the stack.
    pub fn make_scope(&mut self) -> (id: usize)
        requires
            wf(old(self)@),
        ensures
            wf(final(self)@),
            final(self)@ == (StateV {
                scope_store: old(self)@.scope_store.push(Seq::empty()),
                stack: old(self)@.stack.push(old(self)@.scope_store.len() as int),
                ..old(self)@
            }),
            id == old(self)@.scope_store.len(),
            grows(old(self)@, final(self)@),
    {
        let id = self.scope_store.len();
        self.scope_store.push(ObjectData::new());
        self.scope_stack.push(id);
        proof {
            assert(self@.scope_store =~~= old(self)@.scope_store.push(Seq::empty()));
            assert(self@.stack =~~= old(self)@.stack.push(old(self)@.scope_store.len() as int));
            assert(self@ == (StateV {
                scope_store: old(self)@.scope_store.push(Seq::empty()),
                stack: old(self)@.stack.push(old(self)@.scope_store.len() as int),
                ..old(self)@
            }));
            assert forall|l: int|
                0 <= l < self@.scope_store.len() implies entries_ok(
                #[trigger] self@.scope_store[l],
                old(self)@,
            ) by {
                if l < old(self)@.scope_store.len() {
                    assert(self@.scope_store[l] == old(self)@.scope_store[l]);
                    assert(entries_ok(old(self)@.scope_store[l], old(self)@));
                } else {
                    assert(self@.scope_store[l] =~= Seq::<(Seq<u8>, ValueV)>::empty());
                }
            }
            lemma_wf_scopes_stack(old(self)@, self@);
        }
        id
    }

    /// Destroy the current scope: pop the stack; the store keeps the scope
    /// for any closure that captured it.
    pub fn destroy_scope(&mut self)
        requires
            wf(old(self)@),
        ensures
            wf(final(self)@),
            final(self)@ == (StateV {
                stack: if old(self)@.stack.len() > 0 {
                    old(self)@.stack.drop_last()
                } else {
                    old(self)@.stack
                },
                ..old(self)@
            }),
            grows(old(self)@, final(self)@),
    {
        let r = self.scope_stack.pop();
        proof {
            if old(self)@.stack.len() > 0 {
                assert(self@.stack =~~= old(self)@.stack.drop_last());
            } else {
                assert(self@.stack =~~= old(self)@.stack);
            }
            assert(self@ == (StateV {
                stack: if old(self)@.stack.len() > 0 {
                    old(self)@.stack.drop_last()
                } else {
                    old(self)@.stack
                },
                ..old(self)@
            }));
            assert forall|l: int|
                0 <= l < self@.scope_store.len() implies entries_ok(
                #[trigger] self@.scope_store[l],
                old(self)@,
            ) by {
                assert(entries_ok(old(self)@.scope_store[l], old(self)@));
            }
            lemma_wf_scopes_stack(old(self)@, self@);
        }
    }
}

/// Append `src` to `dst`.
fn extend_bytes(dst: &mut Vec<u8>, src: &Vec<u8>)
    ensures
        final(dst)@ == old(dst)@ + src@,
{
    let mut i: usize = 0;
    while i < src.len()
        invariant
            i <= src.len(),
            dst@ == old(dst)@ + src@.subrange(0, i as int),
        decreases src.len() - i,
    {
        dst.push(src[i]);
        i = i + 1;
        proof {
            assert(dst@ =~= old(dst)@ + src@.subrange(0, i as int));
        }
    }
    proof {
        assert(dst@ =~= old(dst)@ + src@);
    }
}

/// Only the output changed: still well-formed.
proof fn lemma_wf_out(a: StateV, b: StateV)
    requires
        wf(a),
        b == (StateV { out: b.out, ..a }),
    ensures
        wf(b),
{
    assert forall|i: int| 0 <= i < b.heap.len() implies entries_ok(#[trigger] b.heap[i], b) by {
        assert(entries_ok(a.heap[i], a));
        assert forall|j: int| 0 <= j < b.heap[i].len() implies val_ok(
            (#[trigger] b.heap[i][j]).1,
            b,
        ) by {
            assert(val_ok(a.heap[i][j].1, a));
        }
    }
    assert forall|i: int| 0 <= i < b.scope_store.len() implies entries_ok(
        #[trigger] b.scope_store[i],
        b,
    ) by {
        assert(entries_ok(a.scope_store[i], a));
        assert forall|j: int| 0 <= j < b.scope_store[i].len() implies val_ok(
            (#[trigger] b.scope_store[i][j]).1,
            b,
        ) by {
            assert(val_ok(a.scope_store[i][j].1, a));
        }
    }
    assert forall|i: int| 0 <= i < b.funcs.len() implies func_ok(#[trigger] b.funcs[i], b) by {
        assert(func_ok(a.funcs[i], a));
    }
}

impl Interpreter {
    /// The value of a literal.
    fn const_value(&self, c: &Const) -> (r: Value)
        ensures
            r@ == const_val(*c),
    {
        match c {
            Const::CNull => Value::Null,
            Const::CUndefined => Value::Undefined,
            Const::CNum(b) => Value::Number(*b),
            Const::CInt(i) => Value::Number(bits_of_int53(*i as i64)),
            Const::CString(s) => Value::StringVal(dup_bytes(s)),
            Const::CBool(b) => Value::Boolean(*b),
            Const::CRegExp(_, _, _) => Value::Boolean(true),
        }
    }

    /// Call the function `fid` with the given receiver and arguments.
    fn call_function(&mut self, fid: usize, this: Value, args: Vec<Value>, fuel: u64) -> (o:
        Outcome)
        requires
            wf(old(self)@),
            fid < old(self)@.funcs.len(),
            val_ok(this@, old(self)@),
            vals_ok(vals_of(args@), old(self)@),
        ensures
            wf(final(self)@),
            grows(old(self)@, final(self)@),
            outcome_ok(o@, final(self)@),
            (final(self)@, o@) == eval_call(
                old(self)@,
                fid as int,
                this@,
                vals_of(args@),
                fuel as nat,
            ),
        decreases fuel, 0int,
    {
        proof {
            assert(self@.funcs[fid as int] == self.funcs@[fid as int]@);
        }
        let kind_opt: Option<NativeFunc> = match &self.funcs[fid].func {
            Function::NativeFunc(k) => Some(*k),
            Function::RegularFunc(_) => None,
        };
        let ghost vals = vals_of(args@);
        match kind_opt {
            Some(NativeFunc::ConsoleLog) => {
                let mut line: Vec<u8> = Vec::new();
                let mut i: usize = 0;
                while i < args.len()
                    invariant
                        i <= args.len(),
                        vals == vals_of(args@),
                        line@ + console_join(vals, i as int) == console_join(vals, 0),
                    decreases args.len() - i,
                {
                    let t = to_string(&args[i]);
                    extend_bytes(&mut line, &t);
                    if i + 1 < args.len() {
                        line.push(32);
                    }
                    proof {
                        assert(vals[i as int] == args@[i as int]@);
                        assert(line@ + console_join(vals, i as int + 1) =~= console_join(vals, 0));
                    }
                    i = i + 1;
                }
                line.push(10);
                proof {
                    assert(line@ =~= console_join(vals, 0));
                }
                extend_bytes(&mut self.out, &line);
                proof {
                    assert(self@ == (StateV { out: old(self)@.out + console_join(vals, 0), ..old(
                        self,
                    )@ }));
                    lemma_wf_out(old(self)@, self@);
                }
                Outcome::Normal(Value::Undefined)
            },
            Some(NativeFunc::MathMax) => {
                let mut acc: u64 = NEG_INF_BITS;
                let mut i: usize = 0;
                while i < args.len()
                    invariant
                        i <= args.len(),
                        vals == vals_of(args@),
                        max_fold(vals, 0, NEG_INF_BITS) == max_fold(vals, i as int, acc),
                    decreases args.len() - i,
                {
                    let n = to_number(&args[i]);
                    proof {
                        assert(vals[i as int] == args@[i as int]@);
                    }
                    if is_nan_bits(acc) || is_nan_bits(n) {
                        acc = NAN_BITS;
                    } else if lt_bits(acc, n) {
                        acc = n;
                    }
                    i = i + 1;
                }
                Outcome::Normal(Value::Number(acc))
            },
            None => {
                if fuel == 0 {
                    return Outcome::Exhausted;
                }
                let ps: Vec<Vec<u8>>;
                let body: Rc<Expr>;
                let cap: Vec<usize>;
                match &self.funcs[fid].func {
                    Function::RegularFunc(r) => {
                        ps = Interpreter::dup_params(&r.args);
                        proof {
                            assert(ps@.map(|i: int, p: Vec<u8>| p@) =~~= r.args@.map(
                                |i: int, p: Vec<u8>| p@,
                            ));
                        }
                        body = rc_clone_expr(&r.body);
                        cap = dup_ids(&r.captured);
                    },
                    Function::NativeFunc(_) => {
                        proof {
                            assert(false);
                        }
                        ps = Vec::new();
                        body = Rc::new(Expr::ConstExpr(Const::CNull));
                        cap = Vec::new();
                    },
                }
                let ghost fv = self@.funcs[fid as int];
                let ghost (params, captured): (Seq<Seq<u8>>, Seq<int>) = match fv {
                    FuncV::Regular { params, captured, .. } => (params, captured),
                    FuncV::Native { .. } => (arbitrary(), arbitrary()),
                };
                proof {
                    assert(fv matches FuncV::Regular { .. });
                    assert(ps@.map(|i: int, p: Vec<u8>| p@) == params);
                    assert(cap@.map(|i: int, x: usize| x as int) == captured);
                    assert(func_ok(fv, self@));
                }
                // bind the formals, then `this`
                let mut sc = ObjectData::new();
                let mut j: usize = 0;
                while j < ps.len()
                    invariant
                        wf(self@),
                        self@ == old(self)@,
                        j <= ps.len(),
                        params == ps@.map(|i: int, p: Vec<u8>| p@),
                        vals == vals_of(args@),
                        vals_ok(vals, self@),
                        sc@ == bind_params_prefix(params, vals, j as int),
                        entries_ok(sc@, self@),
                    decreases ps.len() - j,
                {
                    let av = if j < args.len() {
                        args[j].duplicate()
                    } else {
                        Value::Undefined
                    };
                    proof {
                        if (j as int) < vals.len() {
                            assert(vals[j as int] == args@[j as int]@);
                        }
                        assert(params[j as int] == ps@[j as int]@);
                    }
                    let ghost scpre = sc@;
                    sc.set(dup_bytes(&ps[j]), av);
                    proof {
                        lemma_set_from_membership(scpre, params[j as int], av@, 0);
                        assert forall|l: int| 0 <= l < sc@.len() implies val_ok(
                            (#[trigger] sc@[l]).1,
                            self@,
                        ) by {
                            if sc@[l] == (params[j as int], av@) {
                            } else {
                                assert(scpre.contains(sc@[l]));
                                let m = choose|m: int| 0 <= m < scpre.len() && scpre[m] == sc@[l];
                                assert(val_ok(scpre[m].1, self@));
                            }
                        }
                        lemma_bind_params_prefix(params, vals, j as int);
                    }
                    j = j + 1;
                }
                proof {
                    lemma_bind_params_prefix_full(params, vals);
                }
                let kthis: Vec<u8> = vec![116u8, 104u8, 105u8, 115u8];
                proof {
                    assert(kthis@ =~= k_this());
                }
                let ghost scpre = sc@;
                sc.set(kthis, this.duplicate());
                proof {
                    lemma_set_from_membership(scpre, k_this(), this@, 0);
                    assert forall|l: int| 0 <= l < sc@.len() implies val_ok(
                        (#[trigger] sc@[l]).1,
                        self@,
                    ) by {
                        if sc@[l] == (k_this(), this@) {
                        } else {
                            assert(scpre.contains(sc@[l]));
                            let m = choose|m: int| 0 <= m < scpre.len() && scpre[m] == sc@[l];
                            assert(val_ok(scpre[m].1, self@));
                        }
                    }
                }
                let ghost scv = sc@;
                let sid = self.scope_store.len();
                self.scope_store.push(sc);
                let saved = dup_ids(&self.scope_stack);
                let mut ns = dup_ids(&cap);
                ns.push(sid);
                self.scope_stack = ns;
                proof {
                    assert(self@.scope_store =~~= old(self)@.scope_store.push(scv));
                    assert(self@.stack =~~= captured.push(sid as int));
                    assert(self@ == (StateV {
                        scope_store: old(self)@.scope_store.push(scv),
                        stack: captured.push(sid as int),
                        ..old(self)@
                    }));
                    assert forall|l: int| 0 <= l < self@.stack.len() implies 0
                        <= #[trigger] self@.stack[l] < self@.scope_store.len() by {
                        if l < captured.len() {
                            assert(self@.stack[l] == captured[l]);
                        }
                    }
                    lemma_wf_push_scope(old(self)@, self@, scv);
                }
                let ghost s1 = self@;
                let o = self.run_expr(&*body, fuel - 1);
                let ghost s2 = self@;
                self.scope_stack = saved;
                proof {
                    assert(self@ == (StateV { stack: old(self)@.stack, ..s2 }));
                    assert forall|l: int|
                        0 <= l < self@.scope_store.len() implies entries_ok(
                        #[trigger] self@.scope_store[l],
                        s2,
                    ) by {
                        assert(entries_ok(s2.scope_store[l], s2));
                    }
                    lemma_wf_scopes_stack(s2, self@);
                }
                match o {
                    Outcome::Returned(v) => Outcome::Normal(v),
                    Outcome::Normal(v) => Outcome::Normal(v),
                    Outcome::Thrown(v) => Outcome::Thrown(v),
                    Outcome::Exhausted => Outcome::Exhausted,
                }
            },
        }
    }
}

/// A valid list of values stays valid as the state grows.
proof fn lemma_vals_ok_grows(vs: Seq<ValueV>, a: StateV, b: StateV)
    requires
        vals_ok(vs, a),
        grows(a, b),
    ensures
        vals_ok(vs, b),
{
    assert forall|j: int| 0 <= j < vs.len() implies val_ok(#[trigger] vs[j], b) by {
        assert(val_ok(vs[j], a));
    }
}

impl Interpreter {
    /// Copy a parameter-name list.
    fn dup_params(v: &Vec<Vec<u8>>) -> (r: Vec<Vec<u8>>)
        ensures
            r@.len() == v@.len(),
            forall|l: int| 0 <= l < v@.len() ==> (#[trigger] r@[l])@ == v@[l]@,
    {
        let mut r: Vec<Vec<u8>> = Vec::new();
        let mut i: usize = 0;
        while i < v.len()
            invariant
                i <= v.len(),
                r@.len() == i,
                forall|l: int| 0 <= l < i ==> (#[trigger] r@[l])@ == v@[l]@,
            decreases v.len() - i,
        {
            r.push(dup_bytes(&v[i]));
            i = i + 1;
        }
        r
    }

    /// Evaluate the arguments and dispatch the call.
    fn finish_call(&mut self, func: Value, this: Value, args: &Vec<Expr>, fuel: u64) -> (o: Outcome)
        requires
            wf(old(self)@),
            val_ok(func@, old(self)@),
            val_ok(this@, old(self)@),
        ensures
            wf(final(self)@),
            grows(old(self)@, final(self)@),
            outcome_ok(o@, final(self)@),
            (final(self)@, o@) == eval_call_with(old(self)@, func@, this@, args@, fuel as nat),
        decreases fuel, 1int,
    {
        if fuel == 0 {
            return Outcome::Exhausted;
        }
        let empty_args: Vec<Value> = Vec::new();
        proof {
            assert(vals_of(empty_args@) =~= Seq::<ValueV>::empty());
        }
        match self.run_args(args, 0, empty_args, fuel - 1) {
            Ok(vs) => {
                match &func {
                    Value::Function(fid) => {
                        proof {
                            assert(val_ok(func@, self@));
                            assert(val_ok(this@, self@));
                        }
                        self.call_function(*fid, this, vs, fuel - 1)
                    },
                    _ => Outcome::Thrown(Value::Undefined),
                }
            },
            Err(o) => o,
        }
    }

    /// Evaluate call arguments left to right.
    fn run_args(&mut self, es: &Vec<Expr>, i: usize, acc: Vec<Value>, fuel: u64) -> (r: Result<
        Vec<Value>,
        Outcome,
    >)
        requires
            wf(old(self)@),
            i <= es.len(),
            vals_ok(vals_of(acc@), old(self)@),
        ensures
            wf(final(self)@),
            grows(old(self)@, final(self)@),
            match r {
                Ok(vs) => eval_args(old(self)@, es@, i as int, vals_of(acc@), fuel as nat) == (
                    final(self)@,
                    ArgsV::Done(vals_of(vs@)),
                ) && vals_ok(vals_of(vs@), final(self)@),
                Err(o) => eval_args(old(self)@, es@, i as int, vals_of(acc@), fuel as nat) == (
                    final(self)@,
                    ArgsV::Abrupt(o@),
                ) && outcome_ok(o@, final(self)@),
            },
        decreases fuel, 0int,
    {
        if i >= es.len() {
            return Ok(acc);
        }
        if fuel == 0 {
            return Err(Outcome::Exhausted);
        }
        let o1 = self.run_expr(&es[i], fuel - 1);
        match o1 {
            Outcome::Normal(v) => {
                let mut acc2 = acc;
                let ghost accv = vals_of(acc2@);
                acc2.push(v);
                proof {
                    assert(vals_of(acc2@) =~= accv.push(acc2@[acc2@.len() - 1]@));
                    lemma_vals_ok_grows(accv, old(self)@, self@);
                }
                self.run_args(es, i + 1, acc2, fuel - 1)
            },
            _ => Err(o1),
        }
    }

    /// Evaluate a block's children left to right.
    fn run_block(&mut self, es: &Vec<Expr>, i: usize, last: Value, fuel: u64) -> (o: Outcome)
        requires
            wf(old(self)@),
            i <= es.len(),
            val_ok(last@, old(self)@),
        ensures
            wf(final(self)@),
            grows(old(self)@, final(self)@),
            outcome_ok(o@, final(self)@),
            (final(self)@, o@) == eval_block(old(self)@, es@, i as int, last@, fuel as nat),
        decreases fuel, 0int,
    {
        if i >= es.len() {
            return Outcome::Normal(last);
        }
        if fuel == 0 {
            return Outcome::Exhausted;
        }
        let o1 = self.run_expr(&es[i], fuel - 1);
        match o1 {
            Outcome::Normal(v) => self.run_block(es, i + 1, v, fuel - 1),
            _ => o1,
        }
    }

    /// Evaluate a while loop.
    fn run_while(&mut self, cond: &Expr, body: &Expr, last: Value, fuel: u64) -> (o: Outcome)
        requires
            wf(old(self)@),
            val_ok(last@, old(self)@),
        ensures
            wf(final(self)@),
            grows(old(self)@, final(self)@),
            outcome_ok(o@, final(self)@),
            (final(self)@, o@) == eval_while(old(self)@, *cond, *body, last@, fuel as nat),
        decreases fuel, 0int,
    {
        if fuel == 0 {
            return Outcome::Exhausted;
        }
        let o1 = self.run_expr(cond, fuel - 1);
        match o1 {
            Outcome::Normal(cv) => {
                if !is_true(&cv) {
                    Outcome::Normal(last)
                } else {
                    let o2 = self.run_expr(body, fuel - 1);
                    match o2 {
                        Outcome::Normal(bv) => self.run_while(cond, body, bv, fuel - 1),
                        _ => o2,
                    }
                }
            },
            _ => o1,
        }
    }

    /// Walk the switch cases.
    fn run_cases(
        &mut self,
        dv: &Value,
        cases: &Vec<(Expr, Vec<Expr>)>,
        i: usize,
        result: Value,
        matched: bool,
        default: &Option<Box<Expr>>,
        fuel: u64,
    ) -> (o: Outcome)
        requires
            wf(old(self)@),
            i <= cases.len(),
            val_ok(dv@, old(self)@),
            val_ok(result@, old(self)@),
        ensures
            wf(final(self)@),
            grows(old(self)@, final(self)@),
            outcome_ok(o@, final(self)@),
            (final(self)@, o@) == eval_cases(
                old(self)@,
                dv@,
                cases@,
                i as int,
                result@,
                matched,
                *default,
                fuel as nat,
            ),
        decreases fuel, 0int,
    {
        if i >= cases.len() {
            if !matched {
                match default {
                    Some(d) => {
                        if fuel == 0 {
                            return Outcome::Exhausted;
                        }
                        self.run_expr(&**d, fuel - 1)
                    },
                    None => Outcome::Normal(result),
                }
            } else {
                Outcome::Normal(result)
            }
        } else {
            if fuel == 0 {
                return Outcome::Exhausted;
            }
            let o1 = self.run_expr(&cases[i].0, fuel - 1);
            match o1 {
                Outcome::Normal(cv) => {
                    if value_eq(dv, &cv) {
                        proof {
                            assert(val_ok(result@, self@));
                        }
                        let o2 = self.run_block(&cases[i].1, 0, result, fuel - 1);
                        match o2 {
                            Outcome::Normal(r2) => {
                                proof {
                                    assert(val_ok(dv@, self@));
                                }
                                self.run_cases(dv, cases, i + 1, r2, true, default, fuel - 1)
                            },
                            _ => o2,
                        }
                    } else {
                        proof {
                            assert(val_ok(dv@, self@));
                            assert(val_ok(result@, self@));
                        }
                        self.run_cases(dv, cases, i + 1, result, matched, default, fuel - 1)
                    }
                },
                _ => o1,
            }
        }
    }

    /// Fill an object literal.
    fn run_fields(&mut self, id: usize, fields: &Vec<(Vec<u8>, Expr)>, i: usize, fuel: u64) -> (o:
        Outcome)
        requires
            wf(old(self)@),
            i <= fields.len(),
            id < old(self)@.heap.len(),
        ensures
            wf(final(self)@),
            grows(old(self)@, final(self)@),
            outcome_ok(o@, final(self)@),
            (final(self)@, o@) == eval_fields(old(self)@, id as int, fields@, i as int, fuel as nat),
        decreases fuel, 0int,
    {
        if i >= fields.len() {
            let ko: Vec<u8> = vec![79u8, 98u8, 106u8, 101u8, 99u8, 116u8];
            let kp: Vec<u8> = vec![112u8, 114u8, 111u8, 116u8, 111u8, 116u8, 121u8, 112u8, 101u8];
            let kpr: Vec<u8> = vec![95u8, 95u8, 112u8, 114u8, 111u8, 116u8, 111u8, 95u8, 95u8];
            proof {
                assert(ko@ =~= k_object());
                assert(kp@ =~= k_prototype());
                assert(kpr@ =~= k_proto());
            }
            let g = self.global;
            let objv = self.heap_get(g, &ko);
            let protov = self.get_field_value(&objv, &kp);
            self.heap_set(id, kpr, protov);
            return Outcome::Normal(Value::Object(id));
        }
        if fuel == 0 {
            return Outcome::Exhausted;
        }
        let o1 = self.run_expr(&fields[i].1, fuel - 1);
        match o1 {
            Outcome::Normal(v) => {
                self.heap_set(id, dup_bytes(&fields[i].0), v);
                self.run_fields(id, fields, i + 1, fuel - 1)
            },
            _ => o1,
        }
    }

    /// Fill an array literal.
    fn run_elems(&mut self, id: usize, elems: &Vec<Expr>, i: usize, fuel: u64) -> (o: Outcome)
        requires
            wf(old(self)@),
            i <= elems.len(),
            id < old(self)@.heap.len(),
        ensures
            wf(final(self)@),
            grows(old(self)@, final(self)@),
            outcome_ok(o@, final(self)@),
            (final(self)@, o@) == eval_elems(old(self)@, id as int, elems@, i as int, fuel as nat),
        decreases fuel, 0int,
    {
        if i >= elems.len() {
            let ka: Vec<u8> = vec![65u8, 114u8, 114u8, 97u8, 121u8];
            let kp: Vec<u8> = vec![112u8, 114u8, 111u8, 116u8, 111u8, 116u8, 121u8, 112u8, 101u8];
            let kpr: Vec<u8> = vec![95u8, 95u8, 112u8, 114u8, 111u8, 116u8, 111u8, 95u8, 95u8];
            let kl: Vec<u8> = vec![108u8, 101u8, 110u8, 103u8, 116u8, 104u8];
            proof {
                assert(ka@ =~= k_array());
                assert(kp@ =~= k_prototype());
                assert(kpr@ =~= k_proto());
                assert(kl@ =~= k_length());
            }
            let g = self.global;
            let arrv = self.heap_get(g, &ka);
            let protov = self.get_field_value(&arrv, &kp);
            self.heap_set(id, kpr, protov);
            let n = elems.len();
            let lv: Value = if n < 0x8000_0000 {
                Value::Integer(n as i32)
            } else {
                Value::Number(of_u128_bits(n as u128))
            };
            proof {
                assert(lv@ == arr_len_val(elems@.len()));
            }
            self.heap_set(id, kl, lv);
            return Outcome::Normal(Value::Object(id));
        }
        if fuel == 0 {
            return Outcome::Exhausted;
        }
        let o1 = self.run_expr(&elems[i], fuel - 1);
        match o1 {
            Outcome::Normal(v) => {
                let mut kv: Vec<u8> = Vec::new();
                crate::dbl::push_dec(i as u64, &mut kv);
                proof {
                    assert(kv@ =~= crate::dbl::dec_str(i as nat));
                }
                self.heap_set(id, kv, v);
                self.run_elems(id, elems, i + 1, fuel - 1)
            },
            _ => o1,
        }
    }

    /// Evaluate one expression.
    #[verifier::rlimit(100)]
    pub fn run_expr(&mut self, e: &Expr, fuel: u64) -> (o: Outcome)
        requires
            wf(old(self)@),
        ensures
            wf(final(self)@),
            grows(old(self)@, final(self)@),
            outcome_ok(o@, final(self)@),
            (final(self)@, o@) == eval(old(self)@, *e, fuel as nat),
        decreases fuel, 2int,
    {
        if fuel == 0 {
            return Outcome::Exhausted;
        }
        let fm1 = fuel - 1;
        match e {
            Expr::ConstExpr(c) => Outcome::Normal(self.const_value(c)),
            Expr::BlockExpr(es) => self.run_block(es, 0, Value::Null, fm1),
            Expr::LocalExpr(name) => Outcome::Normal(self.local_get_exec(name)),
            Expr::GetConstFieldExpr(oe, field) => {
                let o1 = self.run_expr(&**oe, fm1);
                match o1 {
                    Outcome::Normal(ov) => {
                        let r = self.get_field_value(&ov, field);
                        Outcome::Normal(r)
                    },
                    _ => o1,
                }
            },
            Expr::GetFieldExpr(oe, fe) => {
                let o1 = self.run_expr(&**oe, fm1);
                match o1 {
                    Outcome::Normal(ov) => {
                        let o2 = self.run_expr(&**fe, fm1);
                        match o2 {
                            Outcome::Normal(kv) => {
                                let key = to_string(&kv);
                                proof {
                                    assert(val_ok(ov@, self@));
                                }
                                let r = self.get_field_value(&ov, &key);
                                Outcome::Normal(r)
                            },
                            _ => o2,
                        }
                    },
                    _ => o1,
                }
            },
            Expr::CallExpr(callee, args) => {
                match &**callee {
                    Expr::GetConstFieldExpr(oe, field) => {
                        let o1 = self.run_expr(&**oe, fm1);
                        match o1 {
                            Outcome::Normal(this_v) => {
                                let func = self.get_field_value(&this_v, field);
                                self.finish_call(func, this_v, args, fuel)
                            },
                            _ => o1,
                        }
                    },
                    Expr::GetFieldExpr(oe, fe) => {
                        let o1 = self.run_expr(&**oe, fm1);
                        match o1 {
                            Outcome::Normal(this_v) => {
                                let o2 = self.run_expr(&**fe, fm1);
                                match o2 {
                                    Outcome::Normal(kv) => {
                                        let key = to_string(&kv);
                                        proof {
                                            assert(val_ok(this_v@, self@));
                                        }
                                        let func = self.get_field_value(&this_v, &key);
                                        self.finish_call(func, this_v, args, fuel)
                                    },
                                    _ => o2,
                                }
                            },
                            _ => o1,
                        }
                    },
                    _ => {
                        let o1 = self.run_expr(&**callee, fm1);
                        match o1 {
                            Outcome::Normal(func) => {
                                let g = self.global;
                                self.finish_call(func, Value::Object(g), args, fuel)
                            },
                            _ => o1,
                        }
                    },
                }
            },
            Expr::WhileLoopExpr(cond, body) => self.run_while(
                &**cond,
                &**body,
                Value::Undefined,
                fm1,
            ),
            Expr::IfExpr(cond, then_e, else_e) => {
                let o1 = self.run_expr(&**cond, fm1);
                match o1 {
                    Outcome::Normal(cv) => {
                        if is_true(&cv) {
                            self.run_expr(&**then_e, fm1)
                        } else {
                            match else_e {
                                Some(ee) => self.run_expr(&**ee, fm1),
                                None => Outcome::Normal(Value::Undefined),
                            }
                        }
                    },
                    _ => o1,
                }
            },
            Expr::SwitchExpr(de, cases, default) => {
                let o1 = self.run_expr(&**de, fm1);
                match o1 {
                    Outcome::Normal(dv) => self.run_cases(
                        &dv,
                        cases,
                        0,
                        Value::Null,
                        false,
                        default,
                        fm1,
                    ),
                    _ => o1,
                }
            },
            Expr::ObjectDeclExpr(fields) => {
                let id = self.alloc_obj();
                self.run_fields(id, fields, 0, fm1)
            },
            Expr::ArrayDeclExpr(elems) => {
                let id = self.alloc_obj();
                self.run_elems(id, elems, 0, fm1)
            },
            Expr::FunctionDeclExpr(name, params, body) => {
                let pid = self.alloc_obj();
                let ps = Interpreter::dup_params(params);
                let cap = dup_ids(&self.scope_stack);
                let bodyrc = rc_clone_expr(body);
                proof {
                    assert(ps@.map(|i: int, p: Vec<u8>| p@) =~~= params@.map(
                        |i: int, p: Vec<u8>| p@,
                    ));
                }
                let rec = FunctionRecord {
                    func: Function::RegularFunc(
                        RegularFunction { args: ps, body: bodyrc, captured: cap },
                    ),
                    props: pid,
                };
                proof {
                    assert(rec@ == FuncV::Regular {
                        params: params@.map(|i: int, p: Vec<u8>| p@),
                        body: **body,
                        captured: self@.stack,
                        props: pid as int,
                    });
                    assert(func_ok(rec@, self@));
                }
                let fid = self.alloc_func(rec);
                match name {
                    Some(n) => {
                        let g = self.global;
                        self.heap_set(g, dup_bytes(n), Value::Function(fid));
                    },
                    None => {},
                }
                Outcome::Normal(Value::Function(fid))
            },
            Expr::NumOpExpr(op, ae, be) => {
                let o1 = self.run_expr(&**ae, fm1);
                match o1 {
                    Outcome::Normal(av) => {
                        let o2 = self.run_expr(&**be, fm1);
                        match o2 {
                            Outcome::Normal(bv) => {
                                let r = apply_num_op(*op, &av, &bv);
                                proof {
                                    assert(val_ok(r@, self@));
                                }
                                Outcome::Normal(r)
                            },
                            _ => o2,
                        }
                    },
                    _ => o1,
                }
            },
            Expr::BitOpExpr(op, ae, be) => {
                let o1 = self.run_expr(&**ae, fm1);
                match o1 {
                    Outcome::Normal(av) => {
                        let o2 = self.run_expr(&**be, fm1);
                        match o2 {
                            Outcome::Normal(bv) => Outcome::Normal(apply_bit_op(*op, &av, &bv)),
                            _ => o2,
                        }
                    },
                    _ => o1,
                }
            },
            Expr::CompOpExpr(op, ae, be) => {
                let o1 = self.run_expr(&**ae, fm1);
                match o1 {
                    Outcome::Normal(av) => {
                        let o2 = self.run_expr(&**be, fm1);
                        match o2 {
                            Outcome::Normal(bv) => Outcome::Normal(apply_comp_op(*op, &av, &bv)),
                            _ => o2,
                        }
                    },
                    _ => o1,
                }
            },
            Expr::ConstructExpr(callee, args) => {
                let o1 = self.run_expr(&**callee, fm1);
                match o1 {
                    Outcome::Normal(fv) => {
                        let empty_args: Vec<Value> = Vec::new();
                        proof {
                            assert(vals_of(empty_args@) =~= Seq::<ValueV>::empty());
                        }
                        match self.run_args(args, 0, empty_args, fm1) {
                            Ok(vs) => {
                                let ghost s_args = self@;
                                let tid = self.alloc_obj();
                                let kp: Vec<u8> = vec![
                                    112u8,
                                    114u8,
                                    111u8,
                                    116u8,
                                    111u8,
                                    116u8,
                                    121u8,
                                    112u8,
                                    101u8,
                                ];
                                let kpr: Vec<u8> = vec![
                                    95u8,
                                    95u8,
                                    112u8,
                                    114u8,
                                    111u8,
                                    116u8,
                                    111u8,
                                    95u8,
                                    95u8,
                                ];
                                proof {
                                    assert(kp@ =~= k_prototype());
                                    assert(kpr@ =~= k_proto());
                                    assert(val_ok(fv@, self@));
                                }
                                let protov = self.get_field_value(&fv, &kp);
                                self.heap_set(tid, kpr, protov);
                                match &fv {
                                    Value::Function(fid) => {
                                        proof {
                                            lemma_vals_ok_grows(vals_of(vs@), s_args, self@);
                                        }
                                        let o5 = self.call_function(
                                            *fid,
                                            Value::Object(tid),
                                            vs,
                                            fm1,
                                        );
                                        match o5 {
                                            Outcome::Normal(_) => Outcome::Normal(
                                                Value::Object(tid),
                                            ),
                                            _ => o5,
                                        }
                                    },
                                    _ => Outcome::Normal(Value::Undefined),
                                }
                            },
                            Err(o2) => o2,
                        }
                    },
                    _ => o1,
                }
            },
            Expr::ReturnExpr(ret) => {
                match ret {
                    Some(re) => {
                        let o1 = self.run_expr(&**re, fm1);
                        match o1 {
                            Outcome::Normal(v) => Outcome::Returned(v),
                            _ => o1,
                        }
                    },
                    None => Outcome::Returned(Value::Undefined),
                }
            },
            Expr::ThrowExpr(ex) => {
                let o1 = self.run_expr(&**ex, fm1);
                match o1 {
                    Outcome::Normal(v) => Outcome::Thrown(v),
                    _ => o1,
                }
            },
            Expr::AssignExpr(ref_e, val_e) => {
                let o1 = self.run_expr(&**val_e, fm1);
                match o1 {
                    Outcome::Normal(v) => {
                        match &**ref_e {
                            Expr::LocalExpr(name) => {
                                let hit = self.scope_assign(name, &v);
                                if !hit {
                                    let g = self.global;
                                    self.heap_set(g, dup_bytes(name), v.duplicate());
                                }
                                Outcome::Normal(v)
                            },
                            Expr::GetConstFieldExpr(oe, field) => {
                                let o2 = self.run_expr(&**oe, fm1);
                                match o2 {
                                    Outcome::Normal(ov) => {
                                        proof {
                                            assert(val_ok(v@, self@));
                                        }
                                        self.set_field_value(&ov, dup_bytes(field), v.duplicate());
                                        Outcome::Normal(v)
                                    },
                                    _ => o2,
                                }
                            },
                            Expr::GetFieldExpr(oe, fe) => {
                                let o2 = self.run_expr(&**oe, fm1);
                                match o2 {
                                    Outcome::Normal(ov) => {
                                        let o3 = self.run_expr(&**fe, fm1);
                                        match o3 {
                                            Outcome::Normal(kv) => {
                                                let key = to_string(&kv);
                                                proof {
                                                    assert(val_ok(ov@, self@));
                                                    assert(val_ok(v@, self@));
                                                }
                                                self.set_field_value(&ov, key, v.duplicate());
                                                Outcome::Normal(v)
                                            },
                                            _ => o3,
                                        }
                                    },
                                    _ => o2,
                                }
                            },
                            _ => Outcome::Normal(v),
                        }
                    },
                    _ => o1,
                }
            },
        }
    }
}

/// The fuel `run` hands the evaluator: the bound on evaluation depth, loop
/// iterations and call nesting that the embedder accepts by default.
pub const DEFAULT_FUEL: u64 = 4096;

/// The value thrown when the fuel runs out.
pub open spec fn lit_overflow() -> Seq<u8> {
    seq![115u8, 116u8, 97u8, 99u8, 107u8, 32u8, 111u8, 118u8, 101u8, 114u8, 102u8, 108u8, 111u8, 119u8]
}

/// What `run` returns: the thrown value on the error side; exhaustion
/// surfaces as a thrown `"stack overflow"` string.
pub open spec fn run_outcome(s: StateV, e: Expr, f: nat) -> (StateV, Result<ValueV, ValueV>) {
    let (s1, o) = eval(s, e, f);
    match o {
        OutcomeV::Normal(v) => (s1, Ok(v)),
        OutcomeV::Returned(v) => (s1, Ok(v)),
        OutcomeV::Thrown(v) => (s1, Err(v)),
        OutcomeV::Exhausted => (s1, Err(ValueV::StringVal(lit_overflow()))),
    }
}

/// The state a fresh interpreter starts in: a global object with the
/// built-in modules installed on it.
pub open spec fn initial_state() -> StateV {
    let s0 = StateV {
        heap: seq![Seq::empty()],
        funcs: Seq::empty(),
        scope_store: Seq::empty(),
        stack: Seq::empty(),
        global: 0,
        out: Seq::empty(),
    };
    let s1 = StateV { heap: s0.heap.push(Seq::empty()), ..s0 };
    let s2 = StateV {
        funcs: s1.funcs.push(FuncV::Native { kind: NativeFunc::ConsoleLog, props: 1 }),
        ..s1
    };
    let s3 = StateV { heap: s2.heap.push(Seq::empty()), ..s2 };
    let s4 = StateV { heap: heap_set_field(s3.heap, 2, k_log(), ValueV::Function(0)), ..s3 };
    let s5 = StateV { heap: heap_set_field(s4.heap, 0, k_console(), ValueV::Object(2)), ..s4 };
    let s6 = StateV { heap: s5.heap.push(Seq::empty()), ..s5 };
    let s7 = StateV {
        funcs: s6.funcs.push(FuncV::Native { kind: NativeFunc::MathMax, props: 3 }),
        ..s6
    };
    let s8 = StateV { heap: s7.heap.push(Seq::empty()), ..s7 };
    let s9 = StateV { heap: heap_set_field(s8.heap, 4, k_max(), ValueV::Function(1)), ..s8 };
    let s10 = StateV { heap: heap_set_field(s9.heap, 0, k_math(), ValueV::Object(4)), ..s9 };
    let s11 = StateV { heap: s10.heap.push(Seq::empty()), ..s10 };
    let s12 = StateV { heap: s11.heap.push(Seq::empty()), ..s11 };
    let s13 = StateV { heap: heap_set_field(s12.heap, 6, k_prototype(), ValueV::Object(5)), ..s12 };
    let s14 = StateV { heap: heap_set_field(s13.heap, 0, k_object(), ValueV::Object(6)), ..s13 };
    let s15 = StateV { heap: s14.heap.push(Seq::empty()), ..s14 };
    let s16 = StateV { heap: s15.heap.push(Seq::empty()), ..s15 };
    let s17 = StateV { heap: heap_set_field(s16.heap, 8, k_prototype(), ValueV::Object(7)), ..s16 };
    let s18 = StateV { heap: heap_set_field(s17.heap, 0, k_array(), ValueV::Object(8)), ..s17 };
    let s19 = StateV { heap: s18.heap.push(Seq::empty()), ..s18 };
    let s20 = StateV { heap: s19.heap.push(Seq::empty()), ..s19 };
    let s21 = StateV {
        heap: heap_set_field(s20.heap, 10, k_prototype(), ValueV::Object(9)),
        ..s20
    };
    let s22 = StateV { heap: heap_set_field(s21.heap, 0, k_function(), ValueV::Object(10)), ..s21 };
    let s23 = StateV { heap: s22.heap.push(Seq::empty()), ..s22 };
    let s24 = StateV { heap: heap_set_field(s23.heap, 0, k_json(), ValueV::Object(11)), ..s23 };
    let s25 = StateV { heap: s24.heap.push(Seq::empty()), ..s24 };
    let s26 = StateV { heap: heap_set_field(s25.heap, 0, k_number(), ValueV::Object(12)), ..s25 };
    let s27 = StateV { heap: s26.heap.push(Seq::empty()), ..s26 };
    let s28 = StateV { heap: heap_set_field(s27.heap, 0, k_error(), ValueV::Object(13)), ..s27 };
    s28
}

impl Interpreter {
    /// Whether a value's handles point into this interpreter's stores.
    pub fn value_valid(&self, v: &Value) -> (r: bool)
        ensures
            r == val_ok(v@, self@),
    {
        match v {
            Value::Object(id) => *id < self.heap.len(),
            Value::Function(f) => *f < self.funcs.len(),
            _ => true,
        }
    }

    /// A fresh interpreter with the built-ins installed on its global.
    pub fn new() -> (r: Interpreter)
        ensures
            r@ == initial_state(),
            wf(r@),
    {
        let mut it = Interpreter {
            heap: Vec::new(),
            funcs: Vec::new(),
            scope_store: Vec::new(),
            scope_stack: Vec::new(),
            global: 0,
            out: Vec::new(),
        };
        it.heap.push(ObjectData::new());
        proof {
            assert(it@.heap =~~= seq![Seq::<(Seq<u8>, ValueV)>::empty()]);
            assert(it@.funcs =~~= Seq::<FuncV>::empty());
            assert(it@.scope_store =~~= Seq::<Seq<(Seq<u8>, ValueV)>>::empty());
            assert(it@.stack =~~= Seq::<int>::empty());
            assert(it@.out =~~= Seq::<u8>::empty());
            assert forall|i: int| 0 <= i < it@.heap.len() implies entries_ok(
                #[trigger] it@.heap[i],
                it@,
            ) by {
                assert(it@.heap[i] =~= Seq::<(Seq<u8>, ValueV)>::empty());
            }
            assert(wf(it@));
        }
        let p_log = it.alloc_obj();
        let f_log = it.alloc_func(
            FunctionRecord { func: Function::NativeFunc(NativeFunc::ConsoleLog), props: p_log },
        );
        let o_console = it.alloc_obj();
        let klog: Vec<u8> = vec![108u8, 111u8, 103u8];
        let kcons: Vec<u8> = vec![99u8, 111u8, 110u8, 115u8, 111u8, 108u8, 101u8];
        proof {
            assert(klog@ =~= k_log());
            assert(kcons@ =~= k_console());
        }
        it.heap_set(o_console, klog, Value::Function(f_log));
        it.heap_set(0, kcons, Value::Object(o_console));
        let p_max = it.alloc_obj();
        let f_max = it.alloc_func(
            FunctionRecord { func: Function::NativeFunc(NativeFunc::MathMax), props: p_max },
        );
        let o_math = it.alloc_obj();
        let kmax: Vec<u8> = vec![109u8, 97u8, 120u8];
        let kmath: Vec<u8> = vec![77u8, 97u8, 116u8, 104u8];
        proof {
            assert(kmax@ =~= k_max());
            assert(kmath@ =~= k_math());
        }
        it.heap_set(o_math, kmax, Value::Function(f_max));
        it.heap_set(0, kmath, Value::Object(o_math));
        let o_objproto = it.alloc_obj();
        let o_object = it.alloc_obj();
        let kproto1: Vec<u8> = vec![112u8, 114u8, 111u8, 116u8, 111u8, 116u8, 121u8, 112u8, 101u8];
        let kobj: Vec<u8> = vec![79u8, 98u8, 106u8, 101u8, 99u8, 116u8];
        proof {
            assert(kproto1@ =~= k_prototype());
            assert(kobj@ =~= k_object());
        }
        it.heap_set(o_object, kproto1, Value::Object(o_objproto));
        it.heap_set(0, kobj, Value::Object(o_object));
        let o_arrproto = it.alloc_obj();
        let o_array = it.alloc_obj();
        let kproto2: Vec<u8> = vec![112u8, 114u8, 111u8, 116u8, 111u8, 116u8, 121u8, 112u8, 101u8];
        let karr: Vec<u8> = vec![65u8, 114u8, 114u8, 97u8, 121u8];
        proof {
            assert(kproto2@ =~= k_prototype());
            assert(karr@ =~= k_array());
        }
        it.heap_set(o_array, kproto2, Value::Object(o_arrproto));
        it.heap_set(0, karr, Value::Object(o_array));
        let o_funproto = it.alloc_obj();
        let o_function = it.alloc_obj();
        let kproto3: Vec<u8> = vec![112u8, 114u8, 111u8, 116u8, 111u8, 116u8, 121u8, 112u8, 101u8];
        let kfun: Vec<u8> = vec![70u8, 117u8, 110u8, 99u8, 116u8, 105u8, 111u8, 110u8];
        proof {
            assert(kproto3@ =~= k_prototype());
            assert(kfun@ =~= k_function());
        }
        it.heap_set(o_function, kproto3, Value::Object(o_funproto));
        it.heap_set(0, kfun, Value::Object(o_function));
        let o_json = it.alloc_obj();
        let kjson: Vec<u8> = vec![74u8, 83u8, 79u8, 78u8];
        proof {
            assert(kjson@ =~= k_json());
        }
        it.heap_set(0, kjson, Value::Object(o_json));
        let o_number = it.alloc_obj();
        let knum: Vec<u8> = vec![78u8, 117u8, 109u8, 98u8, 101u8, 114u8];
        proof {
            assert(knum@ =~= k_number());
        }
        it.heap_set(0, knum, Value::Object(o_number));
        let o_error = it.alloc_obj();
        let kerr: Vec<u8> = vec![69u8, 114u8, 114u8, 111u8, 114u8];
        proof {
            assert(kerr@ =~= k_error());
        }
        it.heap_set(0, kerr, Value::Object(o_error));
        proof {
            assert(it@ == initial_state());
        }
        it
    }

    /// Install or replace a global binding; the installed value is returned.
    pub fn set_global(&mut self, name: Vec<u8>, val: Value) -> (r: Value)
        requires
            wf(old(self)@),
            val_ok(val@, old(self)@),
        ensures
            wf(final(self)@),
            final(self)@ == (StateV {
                heap: heap_set_field(old(self)@.heap, old(self)@.global, name@, val@),
                ..old(self)@
            }),
            r@ == val@,
    {
        let r = val.duplicate();
        let g = self.global;
        self.heap_set(g, name, val);
        r
    }

    /// Read a global binding; Undefined if absent.
    pub fn get_global(&self, name: Vec<u8>) -> (r: Value)
        requires
            wf(self@),
        ensures
            r@ == heap_get_field(self@.heap, self@.global, name@),
            val_ok(r@, self@),
    {
        self.heap_get(self.global, &name)
    }

    /// Evaluate an expression with a caller-chosen fuel bound.
    pub fn run_with_fuel(&mut self, expr: &Expr, fuel: u64) -> (r: Result<Value, Value>)
        requires
            wf(old(self)@),
        ensures
            wf(final(self)@),
            grows(old(self)@, final(self)@),
            run_outcome(old(self)@, *expr, fuel as nat) == (
                final(self)@,
                match r {
                    Ok(v) => Ok::<ValueV, ValueV>(v@),
                    Err(v) => Err::<ValueV, ValueV>(v@),
                },
            ),
    {
        let o = self.run_expr(expr, fuel);
        match o {
            Outcome::Normal(v) => Ok(v),
            Outcome::Returned(v) => Ok(v),
            Outcome::Thrown(v) => Err(v),
            Outcome::Exhausted => {
                let msg: Vec<u8> = vec![
                    115u8,
                    116u8,
                    97u8,
                    99u8,
                    107u8,
                    32u8,
                    111u8,
                    118u8,
                    101u8,
                    114u8,
                    102u8,
                    108u8,
                    111u8,
                    119u8,
                ];
                proof {
                    assert(msg@ =~= lit_overflow());
                }
                Err(Value::StringVal(msg))
            },
        }
    }

    /// Evaluate an expression: the value, or the thrown value.
    pub fn run(&mut self, expr: &Expr) -> (r: Result<Value, Value>)
        requires
            wf(old(self)@),
        ensures
            wf(final(self)@),
            grows(old(self)@, final(self)@),
            run_outcome(old(self)@, *expr, DEFAULT_FUEL as nat) == (
                final(self)@,
                match r {
                    Ok(v) => Ok::<ValueV, ValueV>(v@),
                    Err(v) => Err::<ValueV, ValueV>(v@),
                },
            ),
    {
        self.run_with_fuel(expr, DEFAULT_FUEL)
    }
}

impl Executor for Interpreter {
    open spec fn inv(&self) -> bool {
        wf(self@)
    }

    fn new() -> (r: Box<Interpreter>) {
        Box::new(Interpreter::new())
    }

    fn set_global(&mut self, name: Vec<u8>, val: Value) -> Value {
        if self.value_valid(&val) {
            Interpreter::set_global(self, name, val)
        } else {
            // a handle from another interpreter: refuse it
            Interpreter::set_global(self, name, Value::Undefined)
        }
    }

    fn get_global(&self, name: Vec<u8>) -> Value {
        Interpreter::get_global(self, name)
    }

    fn make_scope(&mut self) -> usize {
        Interpreter::make_scope(self)
    }

    fn destroy_scope(&mut self) {
        Interpreter::destroy_scope(self)
    }

    fn run(&mut self, expr: &Expr) -> Result<Value, Value> {
        Interpreter::run(self, expr)
    }
}

/// The scope entries after binding the first `j` formals.
pub open spec fn bind_params_prefix(params: Seq<Seq<u8>>, vals: Seq<ValueV>, j: int) -> Seq<
    (Seq<u8>, ValueV),
> {
    bind_params_acc_upto(Seq::empty(), params, vals, 0, j)
}

/// Helper: run the binding recursion only up to `j`.
pub open spec fn bind_params_acc_upto(
    acc: Seq<(Seq<u8>, ValueV)>,
    params: Seq<Seq<u8>>,
    vals: Seq<ValueV>,
    i: int,
    j: int,
) -> Seq<(Seq<u8>, ValueV)>
    decreases j - i,
{
    if i >= j || i < 0 || i >= params.len() {
        acc
    } else {
        let av = if i < vals.len() {
            vals[i]
        } else {
            ValueV::Undefined
        };
        bind_params_acc_upto(set_entries(acc, params[i], av), params, vals, i + 1, j)
    }
}

/// Binding one more formal extends the prefix.
proof fn lemma_bind_params_prefix(params: Seq<Seq<u8>>, vals: Seq<ValueV>, j: int)
    requires
        0 <= j < params.len(),
    ensures
        bind_params_prefix(params, vals, j + 1) == set_entries(
            bind_params_prefix(params, vals, j),
            params[j],
            if j < vals.len() {
                vals[j]
            } else {
                ValueV::Undefined
            },
        ),
{
    lemma_bind_upto_step(Seq::empty(), params, vals, 0, j);
}

/// Unrolling the upto recursion one step at the end.
proof fn lemma_bind_upto_step(
    acc: Seq<(Seq<u8>, ValueV)>,
    params: Seq<Seq<u8>>,
    vals: Seq<ValueV>,
    i: int,
    j: int,
)
    requires
        0 <= i <= j < params.len(),
    ensures
        bind_params_acc_upto(acc, params, vals, i, j + 1) == set_entries(
            bind_params_acc_upto(acc, params, vals, i, j),
            params[j],
            if j < vals.len() {
                vals[j]
            } else {
                ValueV::Undefined
            },
        ),
    decreases j - i,
{
    if i == j {
        reveal_with_fuel(bind_params_acc_upto, 3);
    } else {
        let av = if i < vals.len() {
            vals[i]
        } else {
            ValueV::Undefined
        };
        lemma_bind_upto_step(set_entries(acc, params[i], av), params, vals, i + 1, j);
    }
}

/// The full prefix is the bound scope.
proof fn lemma_bind_params_prefix_full(params: Seq<Seq<u8>>, vals: Seq<ValueV>)
    ensures
        bind_params_prefix(params, vals, params.len() as int) == bind_params(
            Seq::empty(),
            params,
            vals,
            0,
        ),
{
    lemma_bind_upto_all(Seq::empty(), params, vals, 0);
}

/// Where the bound is the length, the upto recursion is the full one.
proof fn lemma_bind_upto_all(
    acc: Seq<(Seq<u8>, ValueV)>,
    params: Seq<Seq<u8>>,
    vals: Seq<ValueV>,
    i: int,
)
    ensures
        bind_params_acc_upto(acc, params, vals, i, params.len() as int) == bind_params(
            acc,
            params,
            vals,
            i,
        ),
    decreases params.len() - i,
{
    if 0 <= i < params.len() {
        let av = if i < vals.len() {
            vals[i]
        } else {
            ValueV::Undefined
        };
        lemma_bind_upto_all(set_entries(acc, params[i], av), params, vals, i + 1);
    }
}


/// Law: a constant evaluates to its value and changes no state.
pub proof fn lemma_const_is_its_value(s: StateV, c: Const, f: nat)
    requires
        f >= 1,
    ensures
        eval(s, Expr::ConstExpr(c), f) == (s, OutcomeV::Normal(const_val(c))),
{
}

/// Law: reading a local changes no state, so two reads in a row give the
/// same value.
pub proof fn lemma_local_read_is_pure(s: StateV, e: Expr, f: nat)
    requires
        f >= 1,
        e matches Expr::LocalExpr(_),
    ensures
        eval(s, e, f).0 == s,
        eval(eval(s, e, f).0, e, f) == eval(s, e, f),
{
}

/// Law: a throw turns the thrown expression's value into the error channel.
pub proof fn lemma_throw_is_thrown(s: StateV, e: Expr, f: nat, s1: StateV, w: ValueV)
    requires
        f >= 1,
        e matches Expr::ThrowExpr(inner) && eval(s, *inner, (f - 1) as nat) == (
            s1,
            OutcomeV::Normal(w),
        ),
    ensures
        eval(s, e, f) == (s1, OutcomeV::Thrown(w)),
{
}

/// Law: a thrown value stops a block at the child that threw it; the
/// children after it are never evaluated, so the result does not depend on
/// them.
pub proof fn lemma_thrown_stops_block(
    s: StateV,
    es: Seq<Expr>,
    i: int,
    last: ValueV,
    f: nat,
    s1: StateV,
    w: ValueV,
)
    requires
        0 <= i < es.len(),
        f >= 1,
        eval(s, es[i], (f - 1) as nat) == (s1, OutcomeV::Thrown(w)),
    ensures
        eval_block(s, es, i, last, f) == (s1, OutcomeV::Thrown(w)),
{
}

/// Law: assigning to a local that no scope on the stack binds writes the
/// global object, and the global then reads back as the assigned value.
pub proof fn lemma_assign_unbound_writes_global(
    s: StateV,
    e: Expr,
    name: Seq<u8>,
    f: nat,
    s1: StateV,
    v: ValueV,
)
    requires
        f >= 1,
        wf(s1),
        e matches Expr::AssignExpr(t, val_e) && (*t) matches Expr::LocalExpr(n) && n@ == name
            && eval(s, *val_e, (f - 1) as nat) == (s1, OutcomeV::Normal(v)),
        scope_set_from(s1, name, v, s1.stack.len() as int) is None,
    ensures
        eval(s, e, f) == (
            (StateV { heap: heap_set_field(s1.heap, s1.global, name, v), ..s1 }),
            OutcomeV::Normal(v),
        ),
        heap_get_field(heap_set_field(s1.heap, s1.global, name, v), s1.global, name) == v,
{
    let h2 = heap_set_field(s1.heap, s1.global, name, v);
    crate::object::lemma_lookup_after_set(s1.heap[s1.global], name, v);
    assert(lookup_entries(h2[s1.global], name) == Some(v));
    assert(heap_get_s(h2, s1.global, name, (h2.len() + 1) as nat) == v);
}

/// Law: after `obj.p = 1` and `child.__proto__ = obj`, reading `child.p`
/// falls through the prototype link; writing `child.p` then shadows it
/// without touching `obj.p`.
pub proof fn lemma_prototype_fall_through(
    h: Seq<Seq<(Seq<u8>, ValueV)>>,
    o: int,
    c: int,
    k: Seq<u8>,
    v1: ValueV,
    v2: ValueV,
)
    requires
        0 <= o < h.len(),
        0 <= c < h.len(),
        o != c,
        k != k_proto(),
        lookup_entries(h[c], k) is None,
    ensures
        ({
            let h2 = heap_set_field(h, o, k, v1);
            let h3 = heap_set_field(h2, c, k_proto(), ValueV::Object(o));
            let h4 = heap_set_field(h3, c, k, v2);
            &&& heap_get_field(h3, c, k) == v1
            &&& heap_get_field(h4, c, k) == v2
            &&& heap_get_field(h4, o, k) == v1
        }),
{
    let h2 = heap_set_field(h, o, k, v1);
    let h3 = heap_set_field(h2, c, k_proto(), ValueV::Object(o));
    let h4 = heap_set_field(h3, c, k, v2);
    crate::object::lemma_lookup_after_set(h[o], k, v1);
    crate::object::lemma_lookup_set_other(h2[c], k, k_proto(), ValueV::Object(o));
    crate::object::lemma_lookup_after_set(h2[c], k_proto(), ValueV::Object(o));
    // the fall-through read: child misses, its prototype link hits
    assert(lookup_entries(h3[c], k) is None);
    assert(lookup_entries(h3[c], k_proto()) == Some(ValueV::Object(o)));
    assert(lookup_entries(h3[o], k) == Some(v1));
    assert(heap_get_s(h3, o as int, k, h3.len() as nat) == v1);
    assert(heap_get_field(h3, c, k) == v1);
    // the shadowing write: child now hits locally, the parent is unchanged
    crate::object::lemma_lookup_after_set(h3[c], k, v2);
    assert(heap_get_field(h4, c, k) == v2);
    assert(lookup_entries(h4[o], k) == Some(v1));
    assert(heap_get_field(h4, o, k) == v1);
}

} // verus!
