use vstd::prelude::*;

use crate::chunk::{Chunk, Instruction, Value, falsey};
use crate::compiler::{compilable, compile, first_errors, compiled, strings_live, compiles_to};
use crate::error::{RoxError, RoxErrorKind, RuntimeError};
use crate::heap::{Heap, bytes_equal};
use crate::number::{num_eq, num_lt, num_neg, number_equal, number_less, number_negate};
use vstd::string::StringSliceAdditionalSpecFns;

verus! {

/// The arithmetic on doubles that the machine hands to its caller.
#[derive(Copy, Clone, Debug, PartialEq, Eq, Structural)]
pub enum ArithOp {
    Add,
    Subtract,
    Multiply,
    Divide,
}

/// What one instruction did: go on, halt with the popped result, or fail.
#[derive(Copy, Clone, Debug, PartialEq, Eq, Structural)]
pub enum StepOut {
    Next,
    Halted(Option<Value>),
    Failed(RuntimeError),
}

/// Language equality: same variant and equal contents; numbers compare as IEEE-754
/// doubles, strings by the bytes they hold.
pub open spec fn values_equal(heap: Heap, a: Value, b: Value) -> bool {
    match (a, b) {
        (Value::Number(x), Value::Number(y)) => num_eq(x, y),
        (Value::Bool(x), Value::Bool(y)) => x == y,
        (Value::Nil, Value::Nil) => true,
        (Value::String(x), Value::String(y)) => heap.content(x) == heap.content(y),
        _ => false,
    }
}

/// The result of a numeric instruction on `a` (below) and `b` (on top).
pub open spec fn numeric_result<F: Fn(ArithOp, u64, u64) -> u64>(
    arith: F,
    op: Instruction,
    a: u64,
    b: u64,
    v: Value,
) -> bool {
    match op {
        Instruction::Subtract => v is Number && call_ensures(
            arith,
            (ArithOp::Subtract, a, b),
            v->Number_0,
        ),
        Instruction::Multiply => v is Number && call_ensures(
            arith,
            (ArithOp::Multiply, a, b),
            v->Number_0,
        ),
        Instruction::Divide => v is Number && call_ensures(arith, (ArithOp::Divide, a, b), v->Number_0),
        Instruction::Greater => v == Value::Bool(num_lt(b, a)),
        _ => v == Value::Bool(num_lt(a, b)),
    }
}

/// One step of the machine on `chunk`: from instruction pointer `ip`, stack `st` and heap
/// `h` to `ip2`, `st2`, `h2`, with outcome `out`. The state after a failure is left open.
pub open spec fn exec_step<F: Fn(ArithOp, u64, u64) -> u64>(
    arith: F,
    chunk: Chunk,
    ip: int,
    st: Seq<Value>,
    h: Heap,
    ip2: int,
    st2: Seq<Value>,
    h2: Heap,
    out: StepOut,
) -> bool {
    let n = st.len();
    let next = out == StepOut::Next && ip2 == ip + 1;
    &&& 0 <= ip < chunk.code.len()
    &&& match chunk.code@[ip] {
        Instruction::Return => if n > 0 {
            out == StepOut::Halted(Some(st.last())) && st2 == st.drop_last() && h2 == h
        } else {
            out == StepOut::Halted(None) && st2 == st && h2 == h
        },
        Instruction::Constant(i) => if i < chunk.constants.len() {
            next && st2 == st.push(chunk.constants@[i as int]) && h2 == h
        } else {
            out == StepOut::Failed(RuntimeError::InvalidConstantAddress)
        },
        Instruction::Nil => next && st2 == st.push(Value::Nil) && h2 == h,
        Instruction::True => next && st2 == st.push(Value::Bool(true)) && h2 == h,
        Instruction::False => next && st2 == st.push(Value::Bool(false)) && h2 == h,
        Instruction::Negate => if n == 0 {
            out == StepOut::Failed(RuntimeError::MissingOperand)
        } else if st.last() is Number {
            next && st2 == st.drop_last().push(Value::Number(num_neg(st.last()->Number_0)))
                && h2 == h
        } else {
            out == StepOut::Failed(RuntimeError::InvalidOperand)
        },
        Instruction::Not => if n == 0 {
            out == StepOut::Failed(RuntimeError::MissingOperand)
        } else {
            next && st2 == st.drop_last().push(Value::Bool(falsey(st.last()))) && h2 == h
        },
        Instruction::Equal => if n < 2 {
            out == StepOut::Failed(RuntimeError::MissingOperand)
        } else {
            next && st2 == st.subrange(0, n - 2).push(
                Value::Bool(values_equal(h, st[n - 2], st[n - 1])),
            ) && h2 == h
        },
        Instruction::Add => if n < 2 {
            out == StepOut::Failed(RuntimeError::MissingOperand)
        } else {
            match (st[n - 2], st[n - 1]) {
                (Value::Number(a), Value::Number(b)) => next && st2.len() == n - 1
                    && st2.drop_last() == st.subrange(0, n - 2) && st2.last() is Number
                    && call_ensures(arith, (ArithOp::Add, a, b), st2.last()->Number_0) && h2 == h,
                (Value::String(a), Value::String(b)) => next && st2.len() == n - 1
                    && st2.drop_last() == st.subrange(0, n - 2) && st2.last() is String
                    && Heap::alloc_string_post(h, h.content(a) + h.content(b), h2, st2.last()->String_0),
                _ => out == StepOut::Failed(RuntimeError::InvalidOperand),
            }
        },
        op => if n == 0 {
            out == StepOut::Failed(RuntimeError::MissingOperand)
        } else if !(st[n - 1] is Number) {
            out == StepOut::Failed(RuntimeError::InvalidOperand)
        } else if n == 1 {
            out == StepOut::Failed(RuntimeError::MissingOperand)
        } else if !(st[n - 2] is Number) {
            out == StepOut::Failed(RuntimeError::InvalidOperand)
        } else {
            next && st2.len() == n - 1 && st2.drop_last() == st.subrange(0, n - 2) && numeric_result(
                arith,
                op,
                st[n - 2]->Number_0,
                st[n - 1]->Number_0,
                st2.last(),
            ) && h2 == h
        },
    }
}

/// The machine goes from the first state to the second in `steps` steps that each go on.
pub open spec fn runs<F: Fn(ArithOp, u64, u64) -> u64>(
    arith: F,
    chunk: Chunk,
    ip: int,
    st: Seq<Value>,
    h: Heap,
    ip2: int,
    st2: Seq<Value>,
    h2: Heap,
    steps: nat,
) -> bool
    decreases steps,
{
    if steps == 0 {
        ip == ip2 && st == st2 && h == h2
    } else {
        exists|mip: int, mst: Seq<Value>, mh: Heap|
            runs(arith, chunk, ip, st, h, mip, mst, mh, (steps - 1) as nat) && exec_step(
                arith,
                chunk,
                mip,
                mst,
                mh,
                ip2,
                st2,
                h2,
                StepOut::Next,
            )
    }
}

/// What a run of the machine from the first state promises: it reaches, by steps that go on,
/// a state whose step halts with the returned value, or fails with the returned error,
/// attributed to the line of the failing instruction.
pub open spec fn run_post<F: Fn(ArithOp, u64, u64) -> u64>(
    arith: F,
    chunk: Chunk,
    ip: int,
    st: Seq<Value>,
    h: Heap,
    ip2: int,
    st2: Seq<Value>,
    h2: Heap,
    r: Result<Option<Value>, RoxError>,
) -> bool {
    exists|n: nat, mip: int, mst: Seq<Value>, mh: Heap|
        #[trigger] runs(arith, chunk, ip, st, h, mip, mst, mh, n) && match r {
            Ok(v) => exec_step(arith, chunk, mip, mst, mh, ip2, st2, h2, StepOut::Halted(v)),
            Err(e) => exists|k: RuntimeError|
                {
                    &&& exec_step(arith, chunk, mip, mst, mh, ip2, st2, h2, StepOut::Failed(k))
                    &&& e.src == RoxErrorKind::RuntimeError(k)
                    &&& e.line == chunk.line_of(mip)
                },
        }
}

/// Adding two strings pushes a string holding the first's bytes followed by the second's,
/// whose handle is the one that interning that content again returns.
pub proof fn lemma_concat_interned<F: Fn(ArithOp, u64, u64) -> u64>(
    arith: F,
    chunk: Chunk,
    ip: int,
    st: Seq<Value>,
    h: Heap,
    ip2: int,
    st2: Seq<Value>,
    h2: Heap,
    out: StepOut,
    h3: Heap,
    r3: crate::heap::Ref,
)
    requires
        exec_step(arith, chunk, ip, st, h, ip2, st2, h2, out),
        chunk.code@[ip] == Instruction::Add,
        st.len() >= 2,
        st[st.len() - 2] is String,
        st[st.len() - 1] is String,
        Heap::alloc_string_post(
            h2,
            h.content(st[st.len() - 2]->String_0) + h.content(st[st.len() - 1]->String_0),
            h3,
            r3,
        ),
    ensures
        out == StepOut::Next,
        st2.last() == Value::String(r3),
        h3.slots() == h2.slots(),
        h3.bytes() == h2.bytes(),
        h2.content(r3) == h.content(st[st.len() - 2]->String_0) + h.content(
            st[st.len() - 1]->String_0,
        ),
{
}

/// A chunk the machine can run: well formed, its string constants live in `heap`, and its
/// code ends with `Return`, so that execution never runs off the end. A `Constant` may name
/// a missing pool entry: running it fails with `InvalidConstantAddress`.
pub open spec fn runnable(c: Chunk, heap: Heap) -> bool {
    &&& c.wf()
    &&& strings_live(c.constants@, heap)
    &&& c.code.len() > 0
    &&& c.code@.last() == Instruction::Return
}

/// `Equal` on a stack ending in `a`, `b` replaces them by whether they are equal in the
/// language's sense, and never fails.
pub proof fn lemma_equal_step<F: Fn(ArithOp, u64, u64) -> u64>(
    arith: F,
    chunk: Chunk,
    ip: int,
    st: Seq<Value>,
    h: Heap,
    ip2: int,
    st2: Seq<Value>,
    h2: Heap,
    out: StepOut,
    a: Value,
    b: Value,
)
    requires
        exec_step(arith, chunk, ip, st, h, ip2, st2, h2, out),
        chunk.code@[ip] == Instruction::Equal,
        st.len() >= 2,
        st[st.len() - 2] == a,
        st[st.len() - 1] == b,
    ensures
        out == StepOut::Next,
        st2 == st.subrange(0, st.len() - 2).push(Value::Bool(values_equal(h, a, b))),
        values_equal(h, a, b) <==> match (a, b) {
            (Value::Number(x), Value::Number(y)) => num_eq(x, y),
            (Value::Bool(x), Value::Bool(y)) => x == y,
            (Value::Nil, Value::Nil) => true,
            (Value::String(x), Value::String(y)) => h.content(x) == h.content(y),
            _ => false,
        },
{
}

/// Language equality of two values whose strings are live in `heap`.
pub fn equals(heap: &Heap, a: Value, b: Value) -> (r: bool)
    requires
        heap.wf(),
        a matches Value::String(x) ==> heap.live(x),
        b matches Value::String(y) ==> heap.live(y),
    ensures
        r == values_equal(*heap, a, b),
{
    match (a, b) {
        (Value::Number(x), Value::Number(y)) => number_equal(x, y),
        (Value::Bool(x), Value::Bool(y)) => x == y,
        (Value::Nil, Value::Nil) => true,
        (Value::String(x), Value::String(y)) => bytes_equal(
            heap.deref(x).as_slice(),
            heap.deref(y).as_slice(),
        ),
        _ => false,
    }
}

/// The bytes of `a` followed by those of `b`.
fn concat(a: &[u8], b: &[u8]) -> (r: Vec<u8>)
    ensures
        r@ == a@ + b@,
{
    let mut r: Vec<u8> = Vec::new();
    let mut i: usize = 0;
    while i < a.len()
        invariant
            0 <= i <= a@.len(),
            r@ == a@.subrange(0, i as int),
        decreases a.len() - i,
    {
        r.push(a[i]);
        i += 1;
        assert(r@ =~= a@.subrange(0, i as int));
    }
    let mut j: usize = 0;
    while j < b.len()
        invariant
            0 <= j <= b@.len(),
            r@ == a@ + b@.subrange(0, j as int),
        decreases b.len() - j,
    {
        r.push(b[j]);
        j += 1;
        assert(r@ =~= a@ + b@.subrange(0, j as int));
    }
    assert(b@.subrange(0, b@.len() as int) =~= b@);
    r
}

/// A stack machine that runs a chunk against a heap of strings.
pub struct Vm {
    ip: usize,
    chunk: Chunk,
    stack: Vec<Value>,
    heap: Heap,
}

impl Vm {
    pub closed spec fn ip(&self) -> int {
        self.ip as int
    }

    pub closed spec fn chunk(&self) -> Chunk {
        self.chunk
    }

    pub closed spec fn stack(&self) -> Seq<Value> {
        self.stack@
    }

    pub closed spec fn heap(&self) -> Heap {
        self.heap
    }

    /// The heap is well formed and every string on the stack is live in it.
    pub open spec fn ready(&self) -> bool {
        &&& self.heap().wf()
        &&& strings_live(self.stack(), self.heap())
    }

    /// Ready, holding a runnable chunk, and pointing at one of its instructions.
    pub open spec fn wf(&self) -> bool {
        &&& self.ready()
        &&& runnable(self.chunk(), self.heap())
        &&& 0 <= self.ip() < self.chunk().code.len()
    }

    /// A machine with an empty stack and heap, about to run `chunk` from its start.
    pub fn new(chunk: Chunk) -> (vm: Self)
        ensures
            vm.ready(),
            vm.ip() == 0,
            vm.chunk() == chunk,
            vm.stack().len() == 0,
            vm.heap().slots().len() == 0,
    {
        Self { chunk, ip: 0, stack: Vec::new(), heap: Heap::new() }
    }

    pub fn heap_ref(&self) -> (h: &Heap)
        ensures
            *h == self.heap(),
    {
        &self.heap
    }

    fn runtime_error(&self, kind: RuntimeError, at: usize) -> (e: RoxError)
        requires
            self.chunk.wf(),
            at < self.chunk.code.len(),
        ensures
            e.src == RoxErrorKind::RuntimeError(kind),
            e.line == self.chunk.line_of(at as int),
    {
        RoxError::new(RoxErrorKind::RuntimeError(kind), self.chunk.get_line(at))
    }

    /// Executes the instruction at `ip`.
    fn step<F: Fn(ArithOp, u64, u64) -> u64>(&mut self, arith: &F) -> (out: StepOut)
        requires
            old(self).wf(),
            forall|op: ArithOp, a: u64, b: u64| call_requires(*arith, (op, a, b)),
        ensures
            final(self).chunk == old(self).chunk,
            exec_step(
                *arith,
                old(self).chunk,
                old(self).ip(),
                old(self).stack(),
                old(self).heap(),
                final(self).ip(),
                final(self).stack(),
                final(self).heap(),
                out,
            ),
            out == StepOut::Next ==> final(self).wf(),
            final(self).ready(),
            final(self).heap.wf(),
            final(self).heap.extends(&old(self).heap),
    {
        let ip = self.ip;
        let inst = self.chunk.code[ip];
        self.ip = ip + 1;
        let ghost st = self.stack@;
        let n = self.stack.len();
        match inst {
            Instruction::Return => {
                return match self.stack.pop() {
                    Some(v) => StepOut::Halted(Some(v)),
                    None => StepOut::Halted(None),
                };
            },
            Instruction::Constant(i) => {
                if (i as usize) < self.chunk.constants.len() {
                    let v = self.chunk.constants[i as usize];
                    self.stack.push(v);
                } else {
                    return StepOut::Failed(RuntimeError::InvalidConstantAddress);
                }
            },
            Instruction::Nil => self.stack.push(Value::Nil),
            Instruction::True => self.stack.push(Value::Bool(true)),
            Instruction::False => self.stack.push(Value::Bool(false)),
            Instruction::Negate => {
                match self.pop_number() {
                    Ok(v) => self.stack.push(Value::Number(number_negate(v))),
                    Err(e) => return StepOut::Failed(e),
                }
            },
            Instruction::Not => {
                match self.stack.pop() {
                    Some(v) => self.stack.push(Value::Bool(v.is_falsey())),
                    None => return StepOut::Failed(RuntimeError::MissingOperand),
                }
            },
            Instruction::Equal => {
                if n < 2 {
                    return StepOut::Failed(RuntimeError::MissingOperand);
                }
                let b = self.stack.pop().unwrap();
                let a = self.stack.pop().unwrap();
                let eq = equals(&self.heap, a, b);
                self.stack.push(Value::Bool(eq));
                proof {
                    assert(self.stack@ =~= st.subrange(0, n - 2).push(Value::Bool(eq)));
                }
            },
            Instruction::Add => {
                if n < 2 {
                    return StepOut::Failed(RuntimeError::MissingOperand);
                }
                let b = self.stack.pop().unwrap();
                let a = self.stack.pop().unwrap();
                proof {
                    assert(self.stack@ =~= st.subrange(0, n - 2));
                }
                match (a, b) {
                    (Value::Number(x), Value::Number(y)) => {
                        let r = arith(ArithOp::Add, x, y);
                        self.stack.push(Value::Number(r));
                    },
                    (Value::String(x), Value::String(y)) => {
                        let joined = concat(self.heap.deref(x).as_slice(), self.heap.deref(y).as_slice());
                        let r = self.heap.alloc_string(joined);
                        self.stack.push(Value::String(r));
                    },
                    _ => return StepOut::Failed(RuntimeError::InvalidOperand),
                }
                proof {
                    assert(self.stack@.drop_last() =~= st.subrange(0, n - 2));
                }
            },
            _ => {
                let b = match self.pop_number() {
                    Ok(v) => v,
                    Err(e) => return StepOut::Failed(e),
                };
                let a = match self.pop_number() {
                    Ok(v) => v,
                    Err(e) => return StepOut::Failed(e),
                };
                proof {
                    assert(self.stack@ =~= st.subrange(0, n - 2));
                }
                let v = match inst {
                    Instruction::Subtract => Value::Number(arith(ArithOp::Subtract, a, b)),
                    Instruction::Multiply => Value::Number(arith(ArithOp::Multiply, a, b)),
                    Instruction::Divide => Value::Number(arith(ArithOp::Divide, a, b)),
                    Instruction::Greater => Value::Bool(number_less(b, a)),
                    _ => Value::Bool(number_less(a, b)),
                };
                self.stack.push(v);
                proof {
                    assert(self.stack@.drop_last() =~= st.subrange(0, n - 2));
                }
            },
        }
        proof {
            let c = self.stack@;
            assert forall|k: int| 0 <= k < c.len() implies (#[trigger] c[k] matches Value::String(
                q,
            ) ==> self.heap.live(q)) by {
                if k < c.len() - 1 {
                    assert(c[k] == st[k]);
                }
            }
            let cs = self.chunk.constants@;
            assert forall|k: int| 0 <= k < cs.len() implies (#[trigger] cs[k] matches Value::String(
                q,
            ) ==> self.heap.live(q)) by {
                if cs[k] is String {
                    assert(old(self).heap.live(cs[k]->String_0));
                }
            }
        }
        StepOut::Next
    }

    /// Runs the chunk from `ip` until `Return`, which yields the popped result, or until the
    /// first runtime error.
    pub fn run<F: Fn(ArithOp, u64, u64) -> u64>(&mut self, arith: &F) -> (r: Result<
        Option<Value>,
        RoxError,
    >)
        requires
            old(self).wf(),
            forall|op: ArithOp, a: u64, b: u64| call_requires(*arith, (op, a, b)),
        ensures
            final(self).ready(),
            final(self).chunk() == old(self).chunk(),
            final(self).heap().extends(&old(self).heap()),
            run_post(
                *arith,
                old(self).chunk(),
                old(self).ip(),
                old(self).stack(),
                old(self).heap(),
                final(self).ip(),
                final(self).stack(),
                final(self).heap(),
                r,
            ),
    {
        let ghost ip0 = self.ip as int;
        let ghost st0 = self.stack@;
        let ghost h0 = self.heap;
        let ghost mut n: nat = 0;
        loop
            invariant
                self.wf(),
                self.chunk == old(self).chunk,
                self.heap.extends(&h0),
                h0 == old(self).heap,
                ip0 == old(self).ip(),
                st0 == old(self).stack(),
                forall|op: ArithOp, a: u64, b: u64| call_requires(*arith, (op, a, b)),
                runs(*arith, self.chunk, ip0, st0, h0, self.ip as int, self.stack@, self.heap, n),
            decreases self.chunk.code.len() - self.ip,
        {
            let ghost pip = self.ip as int;
            let ghost pst = self.stack@;
            let ghost ph = self.heap;
            let at = self.ip;
            let out = self.step(arith);
            match out {
                StepOut::Next => {
                    proof {
                        assert(runs(*arith, self.chunk, ip0, st0, h0, pip, pst, ph, n));
                        n = n + 1;
                        assert(runs(
                            *arith,
                            self.chunk,
                            ip0,
                            st0,
                            h0,
                            self.ip as int,
                            self.stack@,
                            self.heap,
                            n,
                        ));
                    }
                },
                StepOut::Halted(v) => {
                    proof {
                        assert(runs(*arith, self.chunk, ip0, st0, h0, pip, pst, ph, n));
                    }
                    return Ok(v);
                },
                StepOut::Failed(kind) => {
                    let e = self.runtime_error(kind, at);
                    proof {
                        assert(runs(*arith, self.chunk, ip0, st0, h0, pip, pst, ph, n));
                    }
                    return Err(e);
                },
            }
        }
    }

    /// Compiles `code` against this machine's heap and, when that succeeds, runs it from its
    /// first instruction on the current stack. Compilation errors come back as a list; a
    /// runtime error as a list of one.
    pub fn interpret<P: Fn(Vec<u8>) -> Option<u64>, F: Fn(ArithOp, u64, u64) -> u64>(
        &mut self,
        code: &str,
        parse_number: &P,
        arith: &F,
    ) -> (r: Result<Option<Value>, Vec<RoxError>>)
        requires
            old(self).ready(),
            code.spec_bytes().len() <= usize::MAX / 4,
            forall|v: Vec<u8>| call_requires(*parse_number, (v,)),
            forall|op: ArithOp, a: u64, b: u64| call_requires(*arith, (op, a, b)),
        ensures
            final(self).ready(),
            final(self).heap().extends(&old(self).heap()),
            match r {
                Ok(v) => exists|h: Heap|
                    {
                        &&& compiled(final(self).chunk(), h)
                        &&& compiles_to(code.spec_bytes(), h, *parse_number, final(self).chunk())
                        &&& h.extends(&old(self).heap())
                        &&& run_post(
                            *arith,
                            final(self).chunk(),
                            0,
                            old(self).stack(),
                            h,
                            final(self).ip(),
                            final(self).stack(),
                            final(self).heap(),
                            Ok(v),
                        )
                    },
                Err(es) => es.len() == 1 && (es[0].src is RuntimeError ==> exists|h: Heap|
                    {
                        &&& compiled(final(self).chunk(), h)
                        &&& compiles_to(code.spec_bytes(), h, *parse_number, final(self).chunk())
                        &&& h.extends(&old(self).heap())
                        &&& run_post(
                            *arith,
                            final(self).chunk(),
                            0,
                            old(self).stack(),
                            h,
                            final(self).ip(),
                            final(self).stack(),
                            final(self).heap(),
                            Err(es[0]),
                        )
                    }),
            },
            compilable(code.spec_bytes(), *parse_number) && r is Err ==> r->Err_0[0].src is RuntimeError,
            first_errors(code.spec_bytes(), r),
    {
        let chunk = match compile(code, &mut self.heap, parse_number) {
            Ok(c) => c,
            Err(es) => {
                proof {
                    let c = self.stack@;
                    assert forall|k: int| 0 <= k < c.len() implies (#[trigger] c[k] matches Value::String(
                        q,
                    ) ==> self.heap.live(q)) by {
                        if c[k] is String {
                            assert(old(self).heap.live(c[k]->String_0));
                        }
                    }
                }
                return Err(es);
            },
        };
        self.chunk = chunk;
        self.ip = 0;
        proof {
            let c = self.stack@;
            assert forall|k: int| 0 <= k < c.len() implies (#[trigger] c[k] matches Value::String(q)
                ==> self.heap.live(q)) by {
                if c[k] is String {
                    assert(old(self).heap.live(c[k]->String_0));
                }
            }
        }
        match self.run(arith) {
            Ok(v) => Ok(v),
            Err(e) => {
                let es = vec![e];
                proof {
                    assert(es@ == seq![e]);
                    assert(es[0] == e);
                }
                Err(es)
            },
        }
    }

    /// Pops the top of the stack, which must be a number.
    fn pop_number(&mut self) -> (r: Result<u64, RuntimeError>)
        requires
            old(self).wf(),
        ensures
            final(self).chunk == old(self).chunk,
            final(self).heap == old(self).heap,
            final(self).ip == old(self).ip,
            final(self).ready(),
            ({
                let st = old(self).stack@;
                if st.len() == 0 {
                    r == Err::<u64, RuntimeError>(RuntimeError::MissingOperand)
                } else if st.last() is Number {
                    r == Ok::<u64, RuntimeError>(st.last()->Number_0) && final(self).stack@
                        == st.drop_last()
                } else {
                    r == Err::<u64, RuntimeError>(RuntimeError::InvalidOperand)
                }
            }),
    {
        let top = self.stack.pop();
        proof {
            let c = self.stack@;
            assert forall|k: int| 0 <= k < c.len() implies (#[trigger] c[k] matches Value::String(
                q,
            ) ==> self.heap.live(q)) by {
                assert(c[k] == old(self).stack@[k]);
            }
        }
        match top {
            Some(Value::Number(v)) => Ok(v),
            Some(_) => Err(RuntimeError::InvalidOperand),
            None => Err(RuntimeError::MissingOperand),
        }
    }
}

} // verus!
