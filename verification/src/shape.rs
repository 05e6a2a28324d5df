//! How the steps of the rewrite change a system: what they append, what
//! they leave as it was, and what they take out.

use crate::emission::{
    Failure,
    all_valid, bind_each, clone_body, clone_one, cloned_as, erase_back, erase_down, erase_each,
    handshake, pop_each, pop_remap, probes, rebind, scan_callers, stitch, CloneView, ScanView,
};
use crate::ir::{
    kept, arity_ok, binary_opcode, bitcast_opcode, valid_opcode, wait_opcode, Binary, DataType, ExprView,
    NodeView, Opcode, PortView, SysView,
};
use vstd::prelude::*;

verus! {

/// The keys from `a` up to, not including, `b`.
pub open spec fn span(a: nat, b: nat) -> Seq<usize> {
    Seq::new((b - a) as nat, |i: int| (a + i) as usize)
}

/// The node `x` of `t` is an expression of the module `m` with an opcode in `cls`.
pub open spec fn fresh(t: SysView, x: usize, m: usize, cls: spec_fn(Opcode) -> bool) -> bool {
    t.is_expr(x) && t.expr(x).parent == m && cls(t.opcode(x))
}

/// `t` is `sv` after expressions with opcodes in `cls` were appended to the
/// body of the module `m`, and binds with a key from `lo` on got arguments.
/// Nothing else differs.
pub open spec fn emits(
    sv: SysView,
    t: SysView,
    m: usize,
    lo: nat,
    cls: spec_fn(Opcode) -> bool,
) -> bool {
    &&& sv.nodes.len() <= t.nodes.len()
    &&& t.current == sv.current
    &&& sv.is_module(m)
    &&& forall|x: usize| sv.has(x) ==> #[trigger] kept(sv, t, x, lo)
    &&& forall|x: usize| sv.is_module(x) && x != m ==> #[trigger] t.body(x) == sv.body(x)
    &&& t.body(m) == sv.body(m) + span(sv.nodes.len(), t.nodes.len())
    &&& forall|x: usize| t.has(x) && !sv.has(x) ==> #[trigger] fresh(t, x, m, cls)
}

/// Every element of `a` is an element of `b`.
pub open spec fn within(a: Seq<usize>, b: Seq<usize>) -> bool {
    forall|j: int| 0 <= j < a.len() ==> b.contains(#[trigger] a[j])
}

/// `t` is `sv` after expressions with a key below `lim` were taken out of
/// their bodies. Nothing else differs.
pub open spec fn erases(sv: SysView, t: SysView, lim: nat) -> bool {
    &&& sv.nodes.len() == t.nodes.len()
    &&& t.current == sv.current
    &&& forall|x: usize| sv.has(x) ==> #[trigger] kept(sv, t, x, sv.nodes.len())
    &&& forall|x: usize| sv.is_module(x) && x >= lim ==> #[trigger] t.body(x) == sv.body(x)
    &&& forall|x: usize| sv.is_module(x) ==> within(#[trigger] t.body(x), sv.body(x))
}

pub proof fn lemma_kept_refl(sv: SysView, x: usize, lo: nat)
    ensures
        kept(sv, sv, x, lo),
{
    match sv.nodes[x as int] {
        NodeView::Expr(a) => {
            assert(a.operands =~= a.operands.subrange(0, a.operands.len() as int));
        },
        _ => {},
    }
}

pub proof fn lemma_kept_trans(a: SysView, b: SysView, c: SysView, x: usize, lo: nat)
    requires
        kept(a, b, x, lo),
        kept(b, c, x, lo),
    ensures
        kept(a, c, x, lo),
{
    match (a.nodes[x as int], b.nodes[x as int], c.nodes[x as int]) {
        (NodeView::Expr(p), NodeView::Expr(q), NodeView::Expr(r)) => {
            assert(p.operands =~= q.operands.subrange(0, p.operands.len() as int));
            assert(q.operands =~= r.operands.subrange(0, q.operands.len() as int));
            assert(p.operands =~= r.operands.subrange(0, p.operands.len() as int));
        },
        _ => {},
    }
}

pub proof fn lemma_emits_refl(sv: SysView, m: usize, lo: nat, cls: spec_fn(Opcode) -> bool)
    requires
        sv.is_module(m),
    ensures
        emits(sv, sv, m, lo, cls),
{
    assert forall|x: usize| sv.has(x) implies #[trigger] kept(sv, sv, x, lo) by {
        lemma_kept_refl(sv, x, lo);
    }
    assert(sv.body(m) + span(sv.nodes.len(), sv.nodes.len()) =~= sv.body(m));
}

pub proof fn lemma_emits_trans(
    a: SysView,
    b: SysView,
    c: SysView,
    m: usize,
    lo: nat,
    cls: spec_fn(Opcode) -> bool,
)
    requires
        emits(a, b, m, lo, cls),
        emits(b, c, m, lo, cls),
    ensures
        emits(a, c, m, lo, cls),
{
    assert forall|x: usize| a.has(x) implies #[trigger] kept(a, c, x, lo) by {
        assert(kept(a, b, x, lo));
        assert(kept(b, c, x, lo));
        lemma_kept_trans(a, b, c, x, lo);
    }
    assert forall|x: usize| a.is_module(x) && x != m implies #[trigger] c.body(x) == a.body(x) by {
        assert(kept(a, b, x, lo));
        assert(b.body(x) == a.body(x));
        assert(c.body(x) == b.body(x));
    }
    assert(c.body(m) =~= a.body(m) + span(a.nodes.len(), c.nodes.len())) by {
        assert(b.body(m) == a.body(m) + span(a.nodes.len(), b.nodes.len()));
        assert(kept(a, b, m, lo));
        assert(c.body(m) == b.body(m) + span(b.nodes.len(), c.nodes.len()));
    }
    assert forall|x: usize| c.has(x) && !a.has(x) implies #[trigger] fresh(c, x, m, cls) by {
        if b.has(x) {
            assert(fresh(b, x, m, cls));
            assert(kept(b, c, x, lo));
        } else {
            assert(fresh(c, x, m, cls));
        }
    }
}

/// What holds for a class of opcodes holds for every wider class.
pub proof fn lemma_emits_widen(
    a: SysView,
    b: SysView,
    m: usize,
    lo: nat,
    cls: spec_fn(Opcode) -> bool,
    lo2: nat,
    cls2: spec_fn(Opcode) -> bool,
)
    requires
        emits(a, b, m, lo, cls),
        lo2 <= lo,
        forall|op: Opcode| cls(op) ==> #[trigger] cls2(op),
    ensures
        emits(a, b, m, lo2, cls2),
{
    assert forall|x: usize| a.has(x) implies #[trigger] kept(a, b, x, lo2) by {
        assert(kept(a, b, x, lo));
    }
    assert forall|x: usize| b.has(x) && !a.has(x) implies #[trigger] fresh(b, x, m, cls2) by {
        assert(fresh(b, x, m, cls));
    }
}

/// One new expression is appended to the current module.
pub proof fn lemma_emit_emits(
    sv: SysView,
    opcode: Opcode,
    operands: Seq<usize>,
    dtype: DataType,
    lo: nat,
    cls: spec_fn(Opcode) -> bool,
)
    requires
        sv.is_module(sv.current),
        sv.nodes.len() < usize::MAX,
        cls(opcode),
    ensures
        emits(sv, sv.emit(opcode, operands, dtype), sv.current, lo, cls),
        sv.emit(opcode, operands, dtype).nodes.len() == sv.nodes.len() + 1,
        sv.emit(opcode, operands, dtype).is_expr(sv.next_key()),
        sv.emit(opcode, operands, dtype).expr(sv.next_key()) == (crate::ir::ExprView {
            opcode,
            operands,
            dtype,
            parent: sv.current,
        }),
{
    let t = sv.emit(opcode, operands, dtype);
    let m = sv.current;
    assert forall|x: usize| sv.has(x) implies #[trigger] kept(sv, t, x, lo) by {
        lemma_kept_refl(sv, x, lo);
    }
    assert(t.body(m) =~= sv.body(m) + span(sv.nodes.len(), t.nodes.len()));
    assert forall|x: usize| t.has(x) && !sv.has(x) implies #[trigger] fresh(t, x, m, cls) by {
        assert(x == sv.next_key());
    }
}

/// A bind from `lo` on gets one more argument.
pub proof fn lemma_attach_emits(
    sv: SysView,
    bind: usize,
    arg: usize,
    m: usize,
    lo: nat,
    cls: spec_fn(Opcode) -> bool,
)
    requires
        sv.is_module(m),
        sv.is_bind(bind),
        bind >= lo,
    ensures
        emits(sv, sv.attach(bind, arg), m, lo, cls),
        sv.attach(bind, arg).nodes.len() == sv.nodes.len(),
{
    let t = sv.attach(bind, arg);
    assert forall|x: usize| sv.has(x) implies #[trigger] kept(sv, t, x, lo) by {
        lemma_kept_refl(sv, x, lo);
        if x == bind {
            let a = sv.operands(bind);
            assert(a =~= a.push(arg).subrange(0, a.len() as int));
        }
    }
    assert(t.body(m) =~= sv.body(m) + span(sv.nodes.len(), t.nodes.len()));
}

/// An expression below `lim` is taken out of its parent's body.
pub proof fn lemma_erase_erases(sv: SysView, key: usize, lim: nat)
    requires
        sv.wf(),
        key < lim,
    ensures
        erases(sv, sv.erase(key), lim),
{
    let t = sv.erase(key);
    assert forall|x: usize| sv.has(x) implies #[trigger] kept(sv, t, x, sv.nodes.len()) by {
        lemma_kept_refl(sv, x, sv.nodes.len());
    }
    if sv.is_expr(key) && sv.is_module(sv.expr(key).parent) {
        let p = sv.expr(key).parent;
        assert(sv.node_ok(key));
        crate::ir::lemma_remove_first(sv.body(p), key);
        assert forall|x: usize| sv.is_module(x) implies within(#[trigger] t.body(x), sv.body(x)) by {
            if x == p {
                assert forall|j: int| 0 <= j < t.body(x).len() implies sv.body(x).contains(
                    #[trigger] t.body(x)[j],
                ) by {
                    assert(t.body(x).contains(t.body(x)[j]));
                }
            } else {
                assert forall|j: int| 0 <= j < t.body(x).len() implies sv.body(x).contains(
                    #[trigger] t.body(x)[j],
                ) by {
                    assert(sv.body(x)[j] == t.body(x)[j]);
                }
            }
        }
    } else {
        assert forall|x: usize| sv.is_module(x) implies within(#[trigger] t.body(x), sv.body(x)) by {
            assert forall|j: int| 0 <= j < t.body(x).len() implies sv.body(x).contains(
                #[trigger] t.body(x)[j],
            ) by {
                assert(sv.body(x)[j] == t.body(x)[j]);
            }
        }
    }
}

pub proof fn lemma_erases_refl(sv: SysView, lim: nat)
    ensures
        erases(sv, sv, lim),
{
    assert forall|x: usize| sv.has(x) implies #[trigger] kept(sv, sv, x, sv.nodes.len()) by {
        lemma_kept_refl(sv, x, sv.nodes.len());
    }
    assert forall|x: usize| sv.is_module(x) implies within(#[trigger] sv.body(x), sv.body(x)) by {
        assert forall|j: int| 0 <= j < sv.body(x).len() implies sv.body(x).contains(
            #[trigger] sv.body(x)[j],
        ) by {}
    }
}

pub proof fn lemma_erases_trans(a: SysView, b: SysView, c: SysView, lim: nat)
    requires
        erases(a, b, lim),
        erases(b, c, lim),
    ensures
        erases(a, c, lim),
{
    assert forall|x: usize| a.has(x) implies #[trigger] kept(a, c, x, a.nodes.len()) by {
        assert(kept(a, b, x, a.nodes.len()));
        assert(kept(b, c, x, b.nodes.len()));
        lemma_kept_trans(a, b, c, x, a.nodes.len());
    }
    assert forall|x: usize| a.is_module(x) && x >= lim implies #[trigger] c.body(x) == a.body(
        x,
    ) by {
        assert(kept(a, b, x, a.nodes.len()));
        assert(b.body(x) == a.body(x));
        assert(c.body(x) == b.body(x));
    }
    assert forall|x: usize| a.is_module(x) implies within(#[trigger] c.body(x), a.body(x)) by {
        assert(kept(a, b, x, a.nodes.len()));
        assert(within(b.body(x), a.body(x)));
        assert(within(c.body(x), b.body(x)));
        assert forall|j: int| 0 <= j < c.body(x).len() implies a.body(x).contains(
            #[trigger] c.body(x)[j],
        ) by {
            let y = c.body(x)[j];
            assert(b.body(x).contains(y));
            let i = choose|i: int| 0 <= i < b.body(x).len() && b.body(x)[i] == y;
            assert(a.body(x).contains(b.body(x)[i]));
        }
    }
}


/// The opcodes of the probes of a handshake and of their conjunctions.
pub open spec fn probe_class() -> spec_fn(Opcode) -> bool {
    |op: Opcode| op == valid_opcode() || op == binary_opcode(Binary::BitwiseAnd)
}

/// The opcodes of a handshake: its probes, their conjunctions, and the wait.
pub open spec fn handshake_class() -> spec_fn(Opcode) -> bool {
    |op: Opcode|
        op == valid_opcode() || op == binary_opcode(Binary::BitwiseAnd) || op == wait_opcode()
}

/// The opcodes of a call of another module: the bind, its pushes, the call.
pub open spec fn link_class() -> spec_fn(Opcode) -> bool {
    |op: Opcode| op == Opcode::Bind || op == Opcode::FIFOPush || op == Opcode::AsyncCall
}

/// The opcode of a pop.
pub open spec fn pop_class() -> spec_fn(Opcode) -> bool {
    |op: Opcode| op == Opcode::FIFOPop
}

/// Is `op` one of the opcodes that the rewrite clones?
pub open spec fn is_cloneable(op: Opcode) -> bool {
    op == binary_opcode(Binary::Add) || op == binary_opcode(Binary::Sub) || op == binary_opcode(
        Binary::Mul,
    ) || op == bitcast_opcode() || op == Opcode::Slice
}

/// The opcodes that the rewrite clones.
pub open spec fn clone_class() -> spec_fn(Opcode) -> bool {
    |op: Opcode| is_cloneable(op)
}

/// The opcodes of what a stage appends before it hands over: clones and binds.
pub open spec fn build_class() -> spec_fn(Opcode) -> bool {
    |op: Opcode| is_cloneable(op) || op == Opcode::Bind
}

/// The opcodes of what a stage holds after its pops: clones and calls.
pub open spec fn work_class() -> spec_fn(Opcode) -> bool {
    |op: Opcode|
        is_cloneable(op) || op == Opcode::Bind || op == Opcode::FIFOPush || op
            == Opcode::AsyncCall
}

/// `c` is the conjunction of the probes of the first `n` of `fifos`, folded
/// from the left.
pub open spec fn and_reduction(sv: SysView, c: usize, fifos: Seq<usize>, n: nat) -> bool
    decreases n,
{
    if n == 0 {
        false
    } else if n == 1 {
        is_probe_of(sv, c, fifos[0])
    } else {
        &&& sv.is_expr(c)
        &&& sv.opcode(c) == binary_opcode(Binary::BitwiseAnd)
        &&& sv.operands(c).len() == 2
        &&& and_reduction(sv, sv.operands(c)[0], fifos, (n - 1) as nat)
        &&& is_probe_of(sv, sv.operands(c)[1], fifos[n - 1])
    }
}

/// `v` is a probe that tells whether `fifo` holds a value.
pub open spec fn is_probe_of(sv: SysView, v: usize, fifo: usize) -> bool {
    sv.is_expr(v) && sv.opcode(v) == valid_opcode() && sv.operands(v) == seq![fifo]
}

/// A conjunction of probes stays one while its nodes are kept.
pub proof fn lemma_and_reduction_kept(
    sv: SysView,
    t: SysView,
    c: usize,
    fifos: Seq<usize>,
    n: nat,
    lo: nat,
)
    requires
        and_reduction(sv, c, fifos, n),
        forall|x: usize| sv.has(x) ==> #[trigger] kept(sv, t, x, lo),
        sv.nodes.len() <= t.nodes.len(),
    ensures
        and_reduction(t, c, fifos, n),
    decreases n,
{
    if n == 1 {
        assert(kept(sv, t, c, lo));
    } else if n > 1 {
        assert(kept(sv, t, c, lo));
        assert(kept(sv, t, sv.operands(c)[1], lo));
        lemma_and_reduction_kept(sv, t, sv.operands(c)[0], fifos, (n - 1) as nat, lo);
    }
}

/// One emitted expression: the system stays well formed, and only the
/// current module's body differs.
pub proof fn lemma_step_emit(
    sv: SysView,
    opcode: Opcode,
    operands: Seq<usize>,
    dtype: DataType,
    lo: nat,
    cls: spec_fn(Opcode) -> bool,
)
    requires
        sv.wf(),
        sv.is_module(sv.current),
        arity_ok(opcode, operands.len()),
        sv.has_all(operands),
        sv.emit(opcode, operands, dtype).nodes.len() <= usize::MAX,
        cls(opcode),
    ensures
        sv.emit(opcode, operands, dtype).wf(),
        emits(sv, sv.emit(opcode, operands, dtype), sv.current, lo, cls),
        sv.emit(opcode, operands, dtype).nodes.len() == sv.nodes.len() + 1,
        sv.emit(opcode, operands, dtype).is_expr(sv.next_key()),
        sv.emit(opcode, operands, dtype).expr(sv.next_key()) == (ExprView {
            opcode,
            operands,
            dtype,
            parent: sv.current,
        }),
        sv.next_key() == sv.nodes.len(),
{
    sv.lemma_emit(opcode, operands, dtype);
    lemma_emit_emits(sv, opcode, operands, dtype, lo, cls);
}

/// One bound argument: the system stays well formed, the push is appended
/// to the current module, and the bind has it as its last argument.
pub proof fn lemma_step_bind_to(
    sv: SysView,
    bind: usize,
    fifo: usize,
    value: usize,
    lo: nat,
    cls: spec_fn(Opcode) -> bool,
)
    requires
        sv.wf(),
        sv.is_module(sv.current),
        sv.is_bind(bind),
        bind >= lo,
        sv.has(fifo),
        sv.has(value),
        sv.bind_to(bind, fifo, value).nodes.len() <= usize::MAX,
        cls(Opcode::FIFOPush),
    ensures
        sv.bind_to(bind, fifo, value).wf(),
        emits(sv, sv.bind_to(bind, fifo, value), sv.current, lo, cls),
        sv.bind_to(bind, fifo, value).nodes.len() == sv.nodes.len() + 1,
        sv.bind_to(bind, fifo, value).is_expr(sv.next_key()),
        sv.bind_to(bind, fifo, value).expr(sv.next_key()) == (ExprView {
            opcode: Opcode::FIFOPush,
            operands: seq![fifo, value],
            dtype: DataType::Void,
            parent: sv.current,
        }),
        sv.bind_to(bind, fifo, value).operands(bind) == sv.operands(bind).push(sv.next_key()),
        sv.next_key() == sv.nodes.len(),
{
    let ops = seq![fifo, value];
    let t = sv.emit(Opcode::FIFOPush, ops, DataType::Void);
    lemma_step_emit(sv, Opcode::FIFOPush, ops, DataType::Void, lo, cls);
    assert(kept(sv, t, bind, lo));
    assert(kept(sv, t, sv.current, lo));
    t.lemma_attach(bind, sv.next_key());
    lemma_attach_emits(t, bind, sv.next_key(), sv.current, lo, cls);
    lemma_emits_trans(sv, t, t.attach(bind, sv.next_key()), sv.current, lo, cls);
}

/// The probes of a handshake.
pub proof fn lemma_probes(sv: SysView, fifos: Seq<usize>, n: nat, lo: nat)
    requires
        sv.wf(),
        sv.is_module(sv.current),
        sv.has_all(fifos),
        n <= fifos.len(),
        probes(sv, fifos, n).nodes.len() <= usize::MAX,
    ensures
        probes(sv, fifos, n).wf(),
        emits(sv, probes(sv, fifos, n), sv.current, lo, probe_class()),
        probes(sv, fifos, n).nodes.len() == sv.nodes.len() + (if n == 0 {
            0
        } else {
            2 * n - 1
        }),
        n >= 1 ==> all_valid(sv, fifos, n) == probes(sv, fifos, n).nodes.len() - 1
            && and_reduction(probes(sv, fifos, n), all_valid(sv, fifos, n), fifos, n),
    decreases n,
{
    let cls = probe_class();
    let t = probes(sv, fifos, n);
    if n == 0 {
        lemma_emits_refl(sv, sv.current, lo, cls);
    } else if n == 1 {
        assert(sv.has(fifos[0]));
        lemma_step_emit(sv, valid_opcode(), seq![fifos[0]], DataType::UInt(1), lo, cls);
    } else {
        let prev = probes(sv, fifos, (n - 1) as nat);
        let v = prev.emit_valid(fifos[n - 1]);
        let acc = all_valid(sv, fifos, (n - 1) as nat);
        assert(t == v.emit_binary(Binary::BitwiseAnd, acc, prev.next_key()));
        assert(t.nodes.len() == prev.nodes.len() + 2);
        lemma_probes(sv, fifos, (n - 1) as nat, lo);
        assert(kept(sv, prev, sv.current, lo));
        assert(sv.has(fifos[n - 1]));
        lemma_step_emit(prev, valid_opcode(), seq![fifos[n - 1]], DataType::UInt(1), lo, cls);
        assert(kept(prev, v, prev.current, lo));
        lemma_step_emit(
            v,
            binary_opcode(Binary::BitwiseAnd),
            seq![acc, prev.next_key()],
            v.dtype_of(acc),
            lo,
            cls,
        );
        lemma_emits_trans(sv, prev, v, sv.current, lo, cls);
        lemma_emits_trans(sv, v, t, sv.current, lo, cls);
        lemma_and_reduction_kept(prev, v, acc, fifos, (n - 1) as nat, lo);
        lemma_and_reduction_kept(v, t, acc, fifos, (n - 1) as nat, lo);
        assert(kept(v, t, prev.next_key(), lo));
        assert(is_probe_of(t, prev.next_key(), fifos[n - 1]));
        assert(t.operands(all_valid(sv, fifos, n)) == seq![acc, prev.next_key()]);
    }
}

/// The handshake: after it the current module has, at the end of its body,
/// the probes and one wait on their conjunction.
pub proof fn lemma_handshake(sv: SysView, fifos: Seq<usize>, lo: nat)
    requires
        sv.wf(),
        sv.is_module(sv.current),
        sv.has_all(fifos),
        handshake(sv, fifos).nodes.len() <= usize::MAX,
    ensures
        handshake(sv, fifos).wf(),
        emits(sv, handshake(sv, fifos), sv.current, lo, handshake_class()),
        handshake(sv, fifos).nodes.len() == sv.nodes.len() + 2 * fifos.len(),
        fifos.len() > 0 ==> is_wait_on_all(
            handshake(sv, fifos),
            (handshake(sv, fifos).nodes.len() - 1) as usize,
            fifos,
        ),
        forall|x: usize|
            !sv.has(x) && handshake(sv, fifos).has(x) && #[trigger] handshake(sv, fifos).opcode(x)
                == wait_opcode() ==> x == handshake(sv, fifos).nodes.len() - 1,
{
    let n = fifos.len();
    let t = handshake(sv, fifos);
    if n == 0 {
        lemma_emits_refl(sv, sv.current, lo, handshake_class());
    } else {
        let p = probes(sv, fifos, n);
        let acc = all_valid(sv, fifos, n);
        assert(t.nodes.len() == p.nodes.len() + 1);
        lemma_probes(sv, fifos, n, lo);
        assert(kept(sv, p, sv.current, lo));
        lemma_step_emit(p, wait_opcode(), seq![acc], DataType::Void, lo, handshake_class());
        lemma_emits_widen(sv, p, sv.current, lo, probe_class(), lo, handshake_class());
        lemma_emits_trans(sv, p, t, sv.current, lo, handshake_class());
        lemma_and_reduction_kept(p, t, acc, fifos, n, lo);
        assert forall|x: usize|
            !sv.has(x) && t.has(x) && #[trigger] t.opcode(x) == wait_opcode() implies x
            == t.nodes.len() - 1 by {
            if p.has(x) {
                assert(fresh(p, x, sv.current, probe_class()));
                assert(kept(p, t, x, lo));
            }
        }
    }
}

/// `w` is a wait on the conjunction of the probes of all of `fifos`.
pub open spec fn is_wait_on_all(sv: SysView, w: usize, fifos: Seq<usize>) -> bool {
    &&& sv.is_expr(w)
    &&& sv.opcode(w) == wait_opcode()
    &&& sv.operands(w).len() == 1
    &&& and_reduction(sv, sv.operands(w)[0], fifos, fifos.len())
}

/// The arguments of a call, bound one by one.
pub proof fn lemma_bind_each(
    sv: SysView,
    bind: usize,
    fifos: Seq<usize>,
    values: Seq<usize>,
    n: nat,
    lo: nat,
)
    requires
        sv.wf(),
        sv.is_module(sv.current),
        sv.is_bind(bind),
        bind >= lo,
        sv.has_all(fifos),
        sv.has_all(values),
        n <= fifos.len(),
        fifos.len() == values.len(),
        bind_each(sv, bind, fifos, values, n).nodes.len() <= usize::MAX,
    ensures
        bind_each(sv, bind, fifos, values, n).wf(),
        emits(sv, bind_each(sv, bind, fifos, values, n), sv.current, lo, link_class()),
        bind_each(sv, bind, fifos, values, n).nodes.len() == sv.nodes.len() + n,
        bind_each(sv, bind, fifos, values, n).operands(bind) == sv.operands(bind) + span(
            sv.nodes.len(),
            sv.nodes.len() + n,
        ),
        forall|i: int|
            0 <= i < n ==> is_push_of(
                bind_each(sv, bind, fifos, values, n),
                #[trigger] span(sv.nodes.len(), sv.nodes.len() + n)[i],
                fifos[i],
                values[i],
            ),
    decreases n,
{
    let cls = link_class();
    let t = bind_each(sv, bind, fifos, values, n);
    if n == 0 {
        lemma_emits_refl(sv, sv.current, lo, cls);
        assert(t.operands(bind) =~= sv.operands(bind) + span(sv.nodes.len(), sv.nodes.len()));
    } else {
        let prev = bind_each(sv, bind, fifos, values, (n - 1) as nat);
        assert(t == prev.bind_to(bind, fifos[n - 1], values[n - 1]));
        assert(t.nodes.len() == prev.nodes.len() + 1);
        lemma_bind_each(sv, bind, fifos, values, (n - 1) as nat, lo);
        assert(kept(sv, prev, sv.current, lo));
        assert(kept(sv, prev, bind, lo));
        assert(sv.has(fifos[n - 1]));
        assert(sv.has(values[n - 1]));
        lemma_step_bind_to(prev, bind, fifos[n - 1], values[n - 1], lo, cls);
        lemma_emits_trans(sv, prev, t, sv.current, lo, cls);
        assert(t.operands(bind) =~= sv.operands(bind) + span(sv.nodes.len(), sv.nodes.len() + n));
        assert forall|i: int| 0 <= i < n implies is_push_of(
            t,
            #[trigger] span(sv.nodes.len(), sv.nodes.len() + n)[i],
            fifos[i],
            values[i],
        ) by {
            let x = span(sv.nodes.len(), sv.nodes.len() + n)[i];
            if i < n - 1 {
                assert(x == span(sv.nodes.len(), (sv.nodes.len() + n - 1) as nat)[i]);
                assert(is_push_of(prev, x, fifos[i], values[i]));
                assert(kept(prev, t, x, lo));
            }
        }
    }
}

/// `p` is a push of `value` to `fifo`.
pub open spec fn is_push_of(sv: SysView, p: usize, fifo: usize, value: usize) -> bool {
    sv.is_expr(p) && sv.opcode(p) == Opcode::FIFOPush && sv.operands(p) == seq![fifo, value]
}

/// `c` is the call that fires `bind`.
pub open spec fn is_call_of(sv: SysView, c: usize, bind: usize) -> bool {
    sv.is_expr(c) && sv.opcode(c) == Opcode::AsyncCall && sv.operands(c) == seq![bind]
}

/// The link of a stage to the module before it: the module `pred` gets, at
/// the end of its body, a bind to `m`, one push for each FIFO, and the call.
pub proof fn lemma_stitch(
    sv: SysView,
    pred: usize,
    m: usize,
    fifos: Seq<usize>,
    values: Seq<usize>,
    lo: nat,
)
    requires
        sv.wf(),
        sv.is_module(pred),
        sv.has(m),
        sv.has_all(fifos),
        sv.has_all(values),
        fifos.len() == values.len(),
        lo <= sv.nodes.len(),
        stitch(sv, pred, m, fifos, values).nodes.len() <= usize::MAX,
    ensures
        stitch(sv, pred, m, fifos, values).wf(),
        emits(
            sv.with_current(pred),
            stitch(sv, pred, m, fifos, values),
            pred,
            lo,
            link_class(),
        ),
        stitch(sv, pred, m, fifos, values).nodes.len() == sv.nodes.len() + fifos.len() + 2,
        is_link_of(stitch(sv, pred, m, fifos, values), sv.next_key(), m, fifos, values),
{
    let cls = link_class();
    let n = fifos.len();
    let s0 = sv.with_current(pred);
    let bind = sv.next_key();
    let s1 = s0.emit_bind(m);
    let s2 = bind_each(s1, bind, fifos, values, n);
    let t = stitch(sv, pred, m, fifos, values);
    assert(t == s2.emit_call(bind));
    assert(t.nodes.len() == s2.nodes.len() + 1);
    assert(forall|k: usize| s0.node_ok(k) == sv.node_ok(k));
    assert(s1.nodes.len() == sv.nodes.len() + 1);
    // the lengths only grow, so every state on the way is within bounds
    lemma_bind_each_len(s1, bind, fifos, values, n);
    lemma_step_emit(s0, Opcode::Bind, seq![m], DataType::Void, lo, cls);
    assert(kept(s0, s1, pred, lo));
    assert forall|i: int| 0 <= i < fifos.len() implies s1.has(#[trigger] fifos[i]) by {
        assert(sv.has(fifos[i]));
    }
    assert forall|i: int| 0 <= i < values.len() implies s1.has(#[trigger] values[i]) by {
        assert(sv.has(values[i]));
    }
    lemma_bind_each(s1, bind, fifos, values, n, lo);
    assert(kept(s1, s2, pred, lo));
    assert(kept(s1, s2, bind, lo));
    lemma_step_emit(s2, Opcode::AsyncCall, seq![bind], DataType::Void, lo, cls);
    lemma_emits_trans(s0, s1, s2, pred, lo, cls);
    lemma_emits_trans(s0, s2, t, pred, lo, cls);
    assert(kept(s2, t, bind, lo));
    assert(t.operands(bind) =~= seq![m] + span((bind + 1) as nat, (bind + 1 + n) as nat));
    assert forall|i: int| 0 <= i < n implies is_push_of(
        t,
        #[trigger] span((bind + 1) as nat, (bind + 1 + n) as nat)[i],
        fifos[i],
        values[i],
    ) by {
        let x = span((bind + 1) as nat, (bind + 1 + n) as nat)[i];
        assert(x == span(s1.nodes.len(), s1.nodes.len() + n)[i]);
        assert(is_push_of(s2, x, fifos[i], values[i]));
        assert(kept(s2, t, x, lo));
    }
}

/// Binding arguments adds one node for each.
pub proof fn lemma_bind_each_len(
    sv: SysView,
    bind: usize,
    fifos: Seq<usize>,
    values: Seq<usize>,
    n: nat,
)
    ensures
        bind_each(sv, bind, fifos, values, n).nodes.len() == sv.nodes.len() + n,
    decreases n,
{
    if n > 0 {
        lemma_bind_each_len(sv, bind, fifos, values, (n - 1) as nat);
    }
}

/// `bind` is a bind to `m` whose arguments are pushes of `values` to
/// `fifos`, one for each in order, and the node after the pushes is the
/// call that fires it.
pub open spec fn is_link_of(
    sv: SysView,
    bind: usize,
    m: usize,
    fifos: Seq<usize>,
    values: Seq<usize>,
) -> bool {
    let n = fifos.len();
    &&& sv.is_bind(bind)
    &&& sv.operands(bind) == seq![m] + span((bind + 1) as nat, (bind + 1 + n) as nat)
    &&& forall|i: int|
        0 <= i < n ==> is_push_of(
            sv,
            #[trigger] span((bind + 1) as nat, (bind + 1 + n) as nat)[i],
            fifos[i],
            values[i],
        )
    &&& is_call_of(sv, (bind + 1 + n) as usize, bind)
}

/// `p` is a pop of `fifo`.
pub open spec fn is_pop_of(sv: SysView, p: usize, fifo: usize) -> bool {
    sv.is_expr(p) && sv.opcode(p) == Opcode::FIFOPop && sv.operands(p) == seq![fifo]
}

/// The pops of a stage: one for each FIFO, in order, at the end of the
/// current module's body.
pub proof fn lemma_pop_each(sv: SysView, ports: Seq<usize>, fifos: Seq<usize>, n: nat, lo: nat)
    requires
        sv.wf(),
        sv.is_module(sv.current),
        sv.has_all(fifos),
        n <= fifos.len(),
        fifos.len() == ports.len(),
        pop_each(sv, fifos, n).nodes.len() <= usize::MAX,
    ensures
        pop_each(sv, fifos, n).wf(),
        emits(sv, pop_each(sv, fifos, n), sv.current, lo, pop_class()),
        pop_each(sv, fifos, n).nodes.len() == sv.nodes.len() + n,
        forall|i: int|
            0 <= i < n ==> is_pop_of(
                pop_each(sv, fifos, n),
                #[trigger] span(sv.nodes.len(), sv.nodes.len() + n)[i],
                fifos[i],
            ),
        forall|k: usize| #[trigger]
            pop_remap(sv, ports, fifos, n).contains_key(k) ==> sv.nodes.len() <= pop_remap(
                sv,
                ports,
                fifos,
                n,
            )[k] < sv.nodes.len() + n,
    decreases n,
{
    let cls = pop_class();
    let t = pop_each(sv, fifos, n);
    if n == 0 {
        lemma_emits_refl(sv, sv.current, lo, cls);
    } else {
        let prev = pop_each(sv, fifos, (n - 1) as nat);
        assert(t == prev.emit_pop(fifos[n - 1]));
        assert(t.nodes.len() == prev.nodes.len() + 1);
        lemma_pop_each(sv, ports, fifos, (n - 1) as nat, lo);
        assert(kept(sv, prev, sv.current, lo));
        assert(sv.has(fifos[n - 1]));
        lemma_step_emit(
            prev,
            Opcode::FIFOPop,
            seq![fifos[n - 1]],
            prev.dtype_of(fifos[n - 1]),
            lo,
            cls,
        );
        lemma_emits_trans(sv, prev, t, sv.current, lo, cls);
        let r0 = pop_remap(sv, ports, fifos, (n - 1) as nat);
        let r1 = pop_remap(sv, ports, fifos, n);
        assert(r1 == r0.insert(ports[n - 1], prev.next_key()));
        assert forall|k: usize| #[trigger] r1.contains_key(k) implies sv.nodes.len() <= r1[k]
            < sv.nodes.len() + n by {
            if k != ports[n - 1] {
                assert(r0.contains_key(k));
            }
        }
        assert forall|i: int| 0 <= i < n implies is_pop_of(
            t,
            #[trigger] span(sv.nodes.len(), sv.nodes.len() + n)[i],
            fifos[i],
        ) by {
            let x = span(sv.nodes.len(), sv.nodes.len() + n)[i];
            if i < n - 1 {
                assert(x == span(sv.nodes.len(), (sv.nodes.len() + n - 1) as nat)[i]);
                assert(is_pop_of(prev, x, fifos[i]));
                assert(kept(prev, t, x, lo));
            }
        }
    }
}


/// The opcode of a bind.
pub open spec fn bind_class() -> spec_fn(Opcode) -> bool {
    |op: Opcode| op == Opcode::Bind
}

/// The opcode of a push.
pub open spec fn push_class() -> spec_fn(Opcode) -> bool {
    |op: Opcode| op == Opcode::FIFOPush
}

/// The opcode of a call.
pub open spec fn call_class() -> spec_fn(Opcode) -> bool {
    |op: Opcode| op == Opcode::AsyncCall
}

/// The scan before its first step.
pub open spec fn scan_start(sv: SysView) -> ScanView {
    ScanView { sys: sv, bind: None, values: Seq::empty(), fifos: Seq::empty() }
}

/// One of `callers` with a key below `bound` pushes `value` to `fifo`.
pub open spec fn pushed_below(
    sv: SysView,
    callers: Seq<usize>,
    bound: nat,
    fifo: usize,
    value: usize,
) -> bool {
    exists|c: usize| c < bound && callers.contains(c) && #[trigger] is_push_of(sv, c, fifo, value)
}

/// One of `callers` with a key below `bound` is a bind to `callee`.
pub open spec fn bound_below(sv: SysView, callers: Seq<usize>, bound: nat, callee: usize) -> bool {
    exists|c: usize|
        c < bound && callers.contains(c) && #[trigger] sv.is_bind(c) && sv.operands(c)[0] == callee
}

/// What a scan has recorded comes from the caller expressions of `sv` with a
/// key below `bound`: the bind, if there is one, is a new bind to the callee
/// of one of them, and each recorded value was pushed by one of them to the
/// FIFO recorded with it.
pub open spec fn scanned_from(sv: SysView, callers: Seq<usize>, bound: nat, st: ScanView) -> bool {
    &&& st.values.len() == st.fifos.len()
    &&& match st.bind {
        Some(b) => {
            &&& st.sys.is_bind(b)
            &&& !sv.has(b)
            &&& st.sys.has(b)
            &&& st.sys.operands(b).len() == 1
            &&& bound_below(sv, callers, bound, st.sys.operands(b)[0])
        },
        None => true,
    }
    &&& forall|i: int|
        0 <= i < st.values.len() ==> pushed_below(
            sv,
            callers,
            bound,
            #[trigger] st.fifos[i],
            st.values[i],
        )
}

/// What is below a bound is below every greater one.
pub proof fn lemma_below_more(
    sv: SysView,
    callers: Seq<usize>,
    bound: nat,
    more: nat,
    fifo: usize,
    value: usize,
)
    requires
        bound <= more,
    ensures
        pushed_below(sv, callers, bound, fifo, value) ==> pushed_below(
            sv,
            callers,
            more,
            fifo,
            value,
        ),
        bound_below(sv, callers, bound, value) ==> bound_below(sv, callers, more, value),
{
    if pushed_below(sv, callers, bound, fifo, value) {
        let c = choose|c: usize|
            c < bound && callers.contains(c) && #[trigger] is_push_of(sv, c, fifo, value);
        assert(is_push_of(sv, c, fifo, value));
    }
    if bound_below(sv, callers, bound, value) {
        let c = choose|c: usize|
            c < bound && callers.contains(c) && #[trigger] sv.is_bind(c) && sv.operands(c)[0]
                == value;
        assert(sv.is_bind(c));
    }
}

/// What was recorded from the callers below a bound was recorded from
/// those below the next, whatever the system has become.
proof fn lemma_scan_keep(sv: SysView, callers: Seq<usize>, c: nat, prev: ScanView, st: ScanView)
    requires
        c >= 1,
        scanned_from(sv, callers, (c - 1) as nat, prev),
        st.values.len() == st.fifos.len(),
        forall|i: int|
            0 <= i < st.values.len() ==> (i < prev.values.len() && #[trigger] st.fifos[i]
                == prev.fifos[i] && st.values[i] == prev.values[i]) || pushed_below(
                sv,
                callers,
                c,
                st.fifos[i],
                st.values[i],
            ),
        match st.bind {
            Some(b) => {
                &&& st.sys.is_bind(b)
                &&& !sv.has(b)
                &&& st.sys.has(b)
                &&& st.sys.operands(b).len() == 1
                &&& (prev.bind == Some(b) && prev.sys.operands(b)[0] == st.sys.operands(b)[0])
                    || bound_below(sv, callers, c, st.sys.operands(b)[0])
            },
            None => true,
        },
    ensures
        scanned_from(sv, callers, c, st),
{
    match st.bind {
        Some(b) => {
            lemma_below_more(sv, callers, (c - 1) as nat, c, 0, st.sys.operands(b)[0]);
        },
        None => {},
    }
    assert forall|i: int| 0 <= i < st.values.len() implies pushed_below(
        sv,
        callers,
        c,
        #[trigger] st.fifos[i],
        st.values[i],
    ) by {
        if i < prev.values.len() && st.fifos[i] == prev.fifos[i] && st.values[i]
            == prev.values[i] {
            assert(pushed_below(sv, callers, (c - 1) as nat, prev.fifos[i], prev.values[i]));
            lemma_below_more(sv, callers, (c - 1) as nat, c, st.fifos[i], st.values[i]);
        }
    }
}

/// The scan of the caller expressions: it appends binds only.
pub proof fn lemma_scan_callers(sv: SysView, callers: Seq<usize>, c: nat, lo: nat)
    requires
        sv.wf(),
        sv.is_module(sv.current),
        c <= sv.nodes.len(),
        lo <= sv.nodes.len(),
        scan_callers(scan_start(sv), callers, c).sys.nodes.len() <= usize::MAX,
    ensures
        scan_callers(scan_start(sv), callers, c).sys.wf(),
        emits(sv, scan_callers(scan_start(sv), callers, c).sys, sv.current, lo, bind_class()),
        scanned_from(sv, callers, c, scan_callers(scan_start(sv), callers, c)),
    decreases c,
{
    let cls = bind_class();
    let st = scan_callers(scan_start(sv), callers, c);
    if c == 0 {
        lemma_emits_refl(sv, sv.current, lo, cls);
    } else {
        let prev = scan_callers(scan_start(sv), callers, (c - 1) as nat);
        let k = (c - 1) as usize;
        assert(prev.sys.nodes.len() <= st.sys.nodes.len());
        lemma_scan_callers(sv, callers, (c - 1) as nat, lo);
        assert(kept(sv, prev.sys, sv.current, lo));
        assert(kept(sv, prev.sys, k, lo));
        assert(sv.node_ok(k));
        assert(prev.sys.node_ok(k));
        if callers.contains(k) && prev.sys.is_expr(k) && prev.sys.opcode(k) == Opcode::FIFOPush {
            let fifo = prev.sys.operands(k)[0];
            let value = prev.sys.operands(k)[1];
            assert(sv.operands(k) =~= seq![fifo, value]);
            assert(is_push_of(sv, k, fifo, value));
            lemma_scan_keep(sv, callers, c, prev, st);
        } else if callers.contains(k) && prev.sys.is_expr(k) && prev.sys.opcode(k)
            == Opcode::Bind {
            let callee = prev.sys.operands(k)[0];
            assert(prev.sys.has(callee));
            assert(sv.operands(k)[0] == callee) by {
                assert(sv.operands(k) =~= prev.sys.operands(k).subrange(
                    0,
                    sv.operands(k).len() as int,
                ));
            }
            lemma_step_emit(prev.sys, Opcode::Bind, seq![callee], DataType::Void, lo, cls);
            lemma_emits_trans(sv, prev.sys, st.sys, sv.current, lo, cls);
            assert(sv.is_bind(k));
            assert(bound_below(sv, callers, c, callee));
            lemma_scan_keep(sv, callers, c, prev, st);
        } else {
            assert(st == prev);
            lemma_scan_keep(sv, callers, c, prev, st);
        }
    }
}

/// `y` is a value of the stage module `m`: a pop or a clone in its body.
pub open spec fn stage_value(sv: SysView, m: usize, y: usize) -> bool {
    sv.is_expr(y) && sv.expr(y).parent == m && (sv.opcode(y) == Opcode::FIFOPop || is_cloneable(
        sv.opcode(y),
    ))
}

/// Every value of `remap` is a value of the stage module `m`.
pub open spec fn stage_values(sv: SysView, m: usize, remap: Map<usize, usize>) -> bool {
    forall|k: usize| remap.contains_key(k) ==> stage_value(sv, m, #[trigger] remap[k])
}

/// The operands of `x` that a clone replaces are values of the stage module `m`.
pub open spec fn closed_operands(sv: SysView, m: usize, x: usize) -> bool {
    let ops = sv.operands(x);
    match sv.opcode(x) {
        Opcode::Binary { .. } => stage_value(sv, m, ops[0]) && stage_value(sv, m, ops[1]),
        Opcode::Cast { .. } => stage_value(sv, m, ops[0]),
        Opcode::Slice => stage_value(sv, m, ops[0]),
        _ => true,
    }
}

/// The cloning of a stage's body: it appends clones only, every clone has
/// values of the stage as operands, and what was cloned is of the body and
/// below the bound.
pub proof fn lemma_clone_body(st: CloneView, body: Seq<usize>, c: nat, lo: nat)
    requires
        st.sys.wf(),
        st.sys.is_module(st.sys.current),
        c <= st.sys.nodes.len(),
        stage_values(st.sys, st.sys.current, st.remap),
        st.cloned.len() == 0,
        match clone_body(st, body, c) {
            Ok(cl) => cl.sys.nodes.len() <= usize::MAX,
            Err(_) => false,
        },
    ensures
        match clone_body(st, body, c) {
            Ok(cl) => {
                &&& cl.sys.wf()
                &&& emits(st.sys, cl.sys, st.sys.current, lo, clone_class())
                &&& stage_values(cl.sys, st.sys.current, cl.remap)
                &&& forall|x: usize|
                    cl.sys.has(x) && !st.sys.has(x) ==> #[trigger] closed_operands(
                        cl.sys,
                        st.sys.current,
                        x,
                    )
                &&& forall|i: int|
                    0 <= i < cl.cloned.len() ==> (#[trigger] cl.cloned[i]) < c && body.contains(
                        cl.cloned[i],
                    )
            },
            Err(_) => false,
        },
    decreases c,
{
    let cls = clone_class();
    let m = st.sys.current;
    if c == 0 {
        lemma_emits_refl(st.sys, m, lo, cls);
    } else {
        let k = (c - 1) as usize;
        let prev = clone_body(st, body, (c - 1) as nat)->Ok_0;
        let cl = clone_body(st, body, c)->Ok_0;
        assert(clone_body(st, body, (c - 1) as nat).is_ok());
        assert(prev.sys.nodes.len() <= cl.sys.nodes.len());
        lemma_clone_body(st, body, (c - 1) as nat, lo);
        assert(kept(st.sys, prev.sys, m, lo));
        if body.contains(k) && prev.sys.is_expr(k) {
            assert(clone_one(prev, k) == Ok::<CloneView, Failure>(cl));
            assert(prev.sys.node_ok(k));
            let ops = prev.sys.operands(k);
            assert(prev.sys.has_all(ops));
            if cl.sys.nodes.len() == prev.sys.nodes.len() {
                assert(cl.sys == prev.sys);
                assert(cl.remap == prev.remap);
            } else {
                let x = prev.sys.next_key();
                assert(cl == cloned_as(prev, k, cl.sys));
                match prev.sys.opcode(k) {
                    Opcode::Binary { binop } => {
                        let a = prev.remap[ops[0]];
                        let b = prev.remap[ops[1]];
                        assert(stage_value(prev.sys, m, a));
                        assert(stage_value(prev.sys, m, b));
                        lemma_step_emit(
                            prev.sys,
                            binary_opcode(binop),
                            seq![a, b],
                            prev.sys.dtype_of(a),
                            lo,
                            cls,
                        );
                        assert(kept(prev.sys, cl.sys, a, lo));
                        assert(kept(prev.sys, cl.sys, b, lo));
                    },
                    Opcode::Cast { cast } => {
                        let a = prev.remap[ops[0]];
                        assert(stage_value(prev.sys, m, a));
                        lemma_step_emit(
                            prev.sys,
                            bitcast_opcode(),
                            seq![a],
                            DataType::Int(32),
                            lo,
                            cls,
                        );
                        assert(kept(prev.sys, cl.sys, a, lo));
                    },
                    Opcode::Slice => {
                        let a = prev.remap[ops[0]];
                        assert(stage_value(prev.sys, m, a));
                        assert(prev.sys.has(ops[1]));
                        assert(prev.sys.has(ops[2]));
                        lemma_step_emit(
                            prev.sys,
                            Opcode::Slice,
                            seq![a, ops[1], ops[2]],
                            prev.sys.dtype_of(a),
                            lo,
                            cls,
                        );
                        assert(kept(prev.sys, cl.sys, a, lo));
                    },
                    _ => {},
                }
                lemma_emits_trans(st.sys, prev.sys, cl.sys, m, lo, cls);
                assert(closed_operands(cl.sys, m, x));
                assert forall|j: usize| cl.remap.contains_key(j) implies stage_value(
                    cl.sys,
                    m,
                    #[trigger] cl.remap[j],
                ) by {
                    if j != k {
                        assert(prev.remap.contains_key(j));
                        assert(stage_value(prev.sys, m, prev.remap[j]));
                        assert(kept(prev.sys, cl.sys, prev.remap[j], lo));
                    }
                }
                assert forall|y: usize|
                    cl.sys.has(y) && !st.sys.has(y) implies #[trigger] closed_operands(
                    cl.sys,
                    m,
                    y,
                ) by {
                    if y != x {
                        assert(closed_operands(prev.sys, m, y));
                        assert(kept(prev.sys, cl.sys, y, lo));
                        assert(fresh(prev.sys, y, m, cls));
                        assert(prev.sys.node_ok(y));
                        lemma_closed_kept(prev.sys, cl.sys, m, y, lo);
                    }
                }
            }
        } else {
            assert(cl == prev);
        }
    }
}

/// Operands that are values of a stage stay so while the nodes are kept.
pub proof fn lemma_closed_kept(sv: SysView, t: SysView, m: usize, x: usize, lo: nat)
    requires
        sv.is_expr(x),
        sv.opcode(x) != Opcode::Bind,
        closed_operands(sv, m, x),
        sv.nodes.len() <= t.nodes.len(),
        forall|y: usize| sv.has(y) ==> #[trigger] kept(sv, t, y, lo),
        sv.has_all(sv.operands(x)),
        arity_ok(sv.opcode(x), sv.operands(x).len()),
    ensures
        closed_operands(t, m, x),
{
    assert(kept(sv, t, x, lo));
    let ops = sv.operands(x);
    match sv.opcode(x) {
        Opcode::Binary { .. } => {
            assert(sv.has(ops[0]));
            assert(sv.has(ops[1]));
            assert(kept(sv, t, ops[0], lo));
            assert(kept(sv, t, ops[1], lo));
        },
        Opcode::Cast { .. } => {
            assert(sv.has(ops[0]));
            assert(kept(sv, t, ops[0], lo));
        },
        Opcode::Slice => {
            assert(sv.has(ops[0]));
            assert(kept(sv, t, ops[0], lo));
        },
        _ => {},
    }
}


/// Every one of `keys` is below `lim`.
pub open spec fn all_below(keys: Seq<usize>, lim: nat) -> bool {
    forall|i: int| 0 <= i < keys.len() ==> (#[trigger] keys[i]) < lim
}

/// Erasing marked keys by falling key takes out expressions below `lim` only.
pub proof fn lemma_erase_down(sv: SysView, marks: Seq<usize>, bound: nat, n: nat, lim: nat)
    requires
        sv.wf(),
        n <= bound,
        all_below(marks, lim),
    ensures
        erase_down(sv, marks, bound, n).wf(),
        erases(sv, erase_down(sv, marks, bound, n), lim),
    decreases n,
{
    if n == 0 {
        lemma_erases_refl(sv, lim);
    } else {
        let prev = erase_down(sv, marks, bound, (n - 1) as nat);
        let key = (bound - n) as usize;
        lemma_erase_down(sv, marks, bound, (n - 1) as nat, lim);
        if marks.contains(key) {
            let i = choose|i: int| 0 <= i < marks.len() && marks[i] == key;
            assert(marks[i] < lim);
            prev.lemma_erase(key);
            lemma_erase_erases(prev, key, lim);
            lemma_erases_trans(sv, prev, prev.erase(key), lim);
        }
    }
}

/// Erasing keys from the last to the first takes out expressions below `lim` only.
pub proof fn lemma_erase_back(sv: SysView, keys: Seq<usize>, n: nat, lim: nat)
    requires
        sv.wf(),
        n <= keys.len(),
        all_below(keys, lim),
    ensures
        erase_back(sv, keys, n).wf(),
        erases(sv, erase_back(sv, keys, n), lim),
    decreases n,
{
    if n == 0 {
        lemma_erases_refl(sv, lim);
    } else {
        let prev = erase_back(sv, keys, (n - 1) as nat);
        let key = keys[keys.len() - n];
        lemma_erase_back(sv, keys, (n - 1) as nat, lim);
        prev.lemma_erase(key);
        lemma_erase_erases(prev, key, lim);
        lemma_erases_trans(sv, prev, prev.erase(key), lim);
    }
}

/// Erasing keys in order takes out expressions below `lim` only.
pub proof fn lemma_erase_each(sv: SysView, keys: Seq<usize>, n: nat, lim: nat)
    requires
        sv.wf(),
        n <= keys.len(),
        all_below(keys, lim),
    ensures
        erase_each(sv, keys, n).wf(),
        erases(sv, erase_each(sv, keys, n), lim),
    decreases n,
{
    if n == 0 {
        lemma_erases_refl(sv, lim);
    } else {
        let prev = erase_each(sv, keys, (n - 1) as nat);
        let key = keys[n - 1];
        lemma_erase_each(sv, keys, (n - 1) as nat, lim);
        prev.lemma_erase(key);
        lemma_erase_erases(prev, key, lim);
        lemma_erases_trans(sv, prev, prev.erase(key), lim);
    }
}

/// `p` pushes `value` to a port of the module `callee` that has the name `name`.
pub open spec fn is_repush(sv: SysView, p: usize, callee: usize, name: Seq<char>, value: usize) -> bool {
    &&& sv.is_expr(p)
    &&& sv.opcode(p) == Opcode::FIFOPush
    &&& sv.operands(p).len() == 2
    &&& sv.operands(p)[1] == value
    &&& sv.is_fifo(sv.operands(p)[0])
    &&& sv.fifo(sv.operands(p)[0]).name == name
    &&& sv.fifo(sv.operands(p)[0]).module == callee
}

/// The recorded pushes, issued again: each is appended to the current
/// module as a push of what stands for the value, to a port of the callee
/// that has the name of the FIFO it was pushed to before, and is the next
/// argument of the bind.
#[verifier::rlimit(80)]
#[verifier::spinoff_prover]
pub proof fn lemma_rebind(
    sv: SysView,
    bind: usize,
    values: Seq<usize>,
    fifos: Seq<usize>,
    remap: Map<usize, usize>,
    n: nat,
    lo: nat,
)
    requires
        sv.wf(),
        sv.is_module(sv.current),
        sv.is_bind(bind),
        bind >= lo,
        values.len() == fifos.len(),
        n <= values.len(),
        forall|k: usize| remap.contains_key(k) ==> sv.has(#[trigger] remap[k]),
        match rebind(sv, bind, values, fifos, remap, n) {
            Ok(t) => t.nodes.len() <= usize::MAX,
            Err(_) => false,
        },
    ensures
        match rebind(sv, bind, values, fifos, remap, n) {
            Ok(t) => {
                &&& t.wf()
                &&& emits(sv, t, sv.current, lo, push_class())
                &&& t.nodes.len() == sv.nodes.len() + n
                &&& t.operands(bind) == sv.operands(bind) + span(
                    sv.nodes.len(),
                    sv.nodes.len() + n,
                )
                &&& forall|i: int|
                    0 <= i < n ==> remap.contains_key(#[trigger] values[i]) && sv.is_fifo(
                        fifos[i],
                    )
                &&& forall|i: int|
                    0 <= i < n ==> is_repush(
                        t,
                        #[trigger] span(sv.nodes.len(), sv.nodes.len() + n)[i],
                        sv.operands(bind)[0],
                        sv.fifo(fifos[i]).name,
                        remap[values[i]],
                    )
            },
            Err(_) => false,
        },
    decreases n,
{
    let cls = push_class();
    if n == 0 {
        lemma_emits_refl(sv, sv.current, lo, cls);
        assert(sv.operands(bind) =~= sv.operands(bind) + span(sv.nodes.len(), sv.nodes.len()));
        assert(rebind(sv, bind, values, fifos, remap, n) == Ok::<SysView, Failure>(sv));
    } else {
        assert(rebind(sv, bind, values, fifos, remap, (n - 1) as nat).is_ok());
        let prev = rebind(sv, bind, values, fifos, remap, (n - 1) as nat)->Ok_0;
        let t = rebind(sv, bind, values, fifos, remap, n)->Ok_0;
        let value = values[n - 1];
        let fifo = fifos[n - 1];
        let port = prev.bind_target(bind, prev.fifo(fifo).name)->Some_0;
        assert(t == prev.bind_to(bind, port, remap[value]));
        assert(t.nodes.len() == prev.nodes.len() + 1);
        lemma_rebind(sv, bind, values, fifos, remap, (n - 1) as nat, lo);
        assert(kept(sv, prev, sv.current, lo));
        assert(kept(sv, prev, bind, lo));
        assert(sv.node_ok(bind));
        let callee = prev.operands(bind)[0];
        assert(callee == sv.operands(bind)[0]) by {
            assert(sv.operands(bind) =~= prev.operands(bind).subrange(
                0,
                sv.operands(bind).len() as int,
            ));
        }
        crate::builder::lemma_find_port_is_port(prev, callee, prev.fifo(fifo).name, 0);
        assert(sv.has(remap[value]));
        lemma_step_bind_to(prev, bind, port, remap[value], lo, cls);
        lemma_emits_trans(sv, prev, t, sv.current, lo, cls);
        assert(t.operands(bind) =~= sv.operands(bind) + span(sv.nodes.len(), sv.nodes.len() + n));
        assert(kept(prev, t, port, lo));
        if sv.has(fifo) {
            assert(kept(sv, prev, fifo, lo));
        }
        assert(prev.is_fifo(fifo));
        assert(prev.fifo(fifo).name == sv.fifo(fifo).name) by {
            // a FIFO below the end of `sv` is kept; one above is new and an expression
            if !sv.has(fifo) {
                assert(fresh(prev, fifo, sv.current, cls));
            }
        }
        assert forall|i: int| 0 <= i < n implies remap.contains_key(#[trigger] values[i])
            && sv.is_fifo(fifos[i]) by {
            if i < n - 1 {
            } else {
                if !sv.has(fifo) {
                    assert(fresh(prev, fifo, sv.current, cls));
                } else {
                    assert(kept(sv, prev, fifo, lo));
                }
            }
        }
        assert forall|i: int| 0 <= i < n implies is_repush(
            t,
            #[trigger] span(sv.nodes.len(), sv.nodes.len() + n)[i],
            sv.operands(bind)[0],
            sv.fifo(fifos[i]).name,
            remap[values[i]],
        ) by {
            let x = span(sv.nodes.len(), sv.nodes.len() + n)[i];
            if i < n - 1 {
                assert(x == span(sv.nodes.len(), (sv.nodes.len() + n - 1) as nat)[i]);
                assert(is_repush(
                    prev,
                    x,
                    sv.operands(bind)[0],
                    sv.fifo(fifos[i]).name,
                    remap[values[i]],
                ));
                assert(kept(prev, t, x, lo));
                assert(prev.node_ok(x));
                assert(prev.has(prev.operands(x)[0]));
                assert(kept(prev, t, prev.operands(x)[0], lo));
            } else {
                assert(x == prev.next_key());
                assert(t.operands(x) == seq![port, remap[value]]);
                assert(t.is_fifo(port));
            }
        }
        assert(t.wf());
        assert(emits(sv, t, sv.current, lo, push_class()));
        assert(t.nodes.len() == sv.nodes.len() + n);
        assert(rebind(sv, bind, values, fifos, remap, n) == Ok::<SysView, Failure>(t));
        assert(t.operands(bind) == sv.operands(bind) + span(sv.nodes.len(), sv.nodes.len() + n));

    }
}


/// The probes of `n` FIFOs are `2n - 1` nodes.
pub proof fn lemma_probes_len(sv: SysView, fifos: Seq<usize>, n: nat)
    ensures
        probes(sv, fifos, n).nodes.len() == sv.nodes.len() + (if n == 0 {
            0
        } else {
            2 * n - 1
        }),
    decreases n,
{
    if n > 1 {
        lemma_probes_len(sv, fifos, (n - 1) as nat);
    }
}

/// The handshake on `n` FIFOs is `2n` nodes.
pub proof fn lemma_handshake_len(sv: SysView, fifos: Seq<usize>)
    ensures
        handshake(sv, fifos).nodes.len() == sv.nodes.len() + 2 * fifos.len(),
{
    lemma_probes_len(sv, fifos, fifos.len());
}

/// The pops of `n` FIFOs are `n` nodes.
pub proof fn lemma_pop_each_len(sv: SysView, fifos: Seq<usize>, n: nat)
    ensures
        pop_each(sv, fifos, n).nodes.len() == sv.nodes.len() + n,
    decreases n,
{
    if n > 0 {
        lemma_pop_each_len(sv, fifos, (n - 1) as nat);
    }
}

/// A scan takes no node away.
pub proof fn lemma_scan_len(st: ScanView, callers: Seq<usize>, c: nat)
    ensures
        st.sys.nodes.len() <= scan_callers(st, callers, c).sys.nodes.len(),
    decreases c,
{
    if c > 0 {
        lemma_scan_len(st, callers, (c - 1) as nat);
    }
}

/// Cloning takes no node away.
pub proof fn lemma_clone_len(st: CloneView, body: Seq<usize>, c: nat)
    ensures
        match clone_body(st, body, c) {
            Ok(cl) => st.sys.nodes.len() <= cl.sys.nodes.len(),
            Err(_) => true,
        },
    decreases c,
{
    if c > 0 {
        lemma_clone_len(st, body, (c - 1) as nat);
    }
}

/// Erasing keeps the number of nodes.
pub proof fn lemma_erase_lens(sv: SysView, keys: Seq<usize>, bound: nat, n: nat)
    ensures
        erase_down(sv, keys, bound, n).nodes.len() == sv.nodes.len(),
        erase_back(sv, keys, n).nodes.len() == sv.nodes.len(),
        erase_each(sv, keys, n).nodes.len() == sv.nodes.len(),
    decreases n,
{
    if n > 0 {
        lemma_erase_lens(sv, keys, bound, (n - 1) as nat);
    }
}

/// Issuing pushes again takes no node away.
pub proof fn lemma_rebind_len(
    sv: SysView,
    bind: usize,
    values: Seq<usize>,
    fifos: Seq<usize>,
    remap: Map<usize, usize>,
    n: nat,
)
    ensures
        match rebind(sv, bind, values, fifos, remap, n) {
            Ok(t) => sv.nodes.len() <= t.nodes.len(),
            Err(_) => true,
        },
    decreases n,
{
    if n > 0 {
        lemma_rebind_len(sv, bind, values, fifos, remap, (n - 1) as nat);
    }
}

/// Is `op` an opcode that the rewrite emits?
pub open spec fn is_rewrite_op(op: Opcode) -> bool {
    op == valid_opcode() || op == binary_opcode(Binary::BitwiseAnd) || op == wait_opcode() || op
        == Opcode::FIFOPop || is_cloneable(op) || is_link_op(op)
}

/// Is `op` the opcode of a bind, a push or a call?
pub open spec fn is_link_op(op: Opcode) -> bool {
    op == Opcode::Bind || op == Opcode::FIFOPush || op == Opcode::AsyncCall
}

/// The new node `x` of `r` is as the rewrite makes nodes: an expression
/// among them has an opcode that the rewrite emits, belongs to a module
/// from `base` on unless it is part of a call, and, if it is a call, fires
/// a bind from `base` on.
pub open spec fn made(r: SysView, x: usize, base: nat) -> bool {
    r.is_expr(x) ==> {
        &&& is_rewrite_op(r.opcode(x))
        &&& r.expr(x).parent < base ==> is_link_op(r.opcode(x))
        &&& r.opcode(x) == Opcode::AsyncCall ==> r.operands(x).len() == 1 && r.operands(x)[0]
            >= base
    }
}

/// Every element of the body of `x` in `r` is of its body in `sv` or new.
pub open spec fn mixed(sv: SysView, r: SysView, x: usize) -> bool {
    forall|j: int|
        0 <= j < r.body(x).len() ==> sv.body(x).contains(#[trigger] r.body(x)[j]) || r.body(x)[j]
            >= sv.nodes.len()
}

/// `r` is `sv` after steps of the rewrite that began when the system had
/// `base` nodes: every node of `sv` is kept, with its operands unless it is
/// a bind from `base` on; the body of a module from `lim` on is only
/// appended to; no body gets an old expression of another body; and every
/// new node is as the rewrite makes nodes.
pub open spec fn advances(sv: SysView, r: SysView, lim: nat, base: nat) -> bool {
    &&& sv.nodes.len() <= r.nodes.len()
    &&& forall|x: usize| sv.has(x) ==> #[trigger] kept(sv, r, x, base)
    &&& forall|x: usize|
        sv.is_module(x) && x >= lim ==> sv.body(x).is_prefix_of(#[trigger] r.body(x))
    &&& forall|x: usize| sv.is_module(x) ==> #[trigger] mixed(sv, r, x)
    &&& forall|x: usize| r.has(x) && !sv.has(x) ==> #[trigger] made(r, x, base)
}

pub proof fn lemma_advances_refl(sv: SysView, lim: nat, base: nat)
    ensures
        advances(sv, sv, lim, base),
{
    assert forall|x: usize| sv.has(x) implies #[trigger] kept(sv, sv, x, base) by {
        lemma_kept_refl(sv, x, base);
    }
    assert forall|x: usize| sv.is_module(x) && x >= lim implies sv.body(x).is_prefix_of(
        #[trigger] sv.body(x),
    ) by {
        assert(sv.body(x) =~= sv.body(x).subrange(0, sv.body(x).len() as int));
    }
    assert forall|x: usize| sv.is_module(x) implies #[trigger] mixed(sv, sv, x) by {}
}

pub proof fn lemma_advances_trans(
    a: SysView,
    b: SysView,
    c: SysView,
    lim: nat,
    base: nat,
    base2: nat,
)
    requires
        advances(a, b, lim, base),
        advances(b, c, lim, base2),
        base <= base2,
    ensures
        advances(a, c, lim, base),
{
    assert forall|x: usize| a.has(x) implies #[trigger] kept(a, c, x, base) by {
        assert(kept(a, b, x, base));
        assert(kept(b, c, x, base2));
        lemma_kept_trans(a, b, c, x, base);
    }
    assert forall|x: usize| a.is_module(x) && x >= lim implies a.body(x).is_prefix_of(
        #[trigger] c.body(x),
    ) by {
        assert(kept(a, b, x, base));
        let p = a.body(x);
        let q = b.body(x);
        let r = c.body(x);
        assert(p.is_prefix_of(q));
        assert(q.is_prefix_of(r));
        assert(p =~= q.subrange(0, p.len() as int));
        assert(q =~= r.subrange(0, q.len() as int));
        assert(p =~= r.subrange(0, p.len() as int));
    }
    assert forall|x: usize| a.is_module(x) implies #[trigger] mixed(a, c, x) by {
        assert(kept(a, b, x, base));
        assert(mixed(a, b, x));
        assert(mixed(b, c, x));
        assert forall|j: int| 0 <= j < c.body(x).len() implies a.body(x).contains(
            #[trigger] c.body(x)[j],
        ) || c.body(x)[j] >= a.nodes.len() by {
            let y = c.body(x)[j];
            if b.body(x).contains(y) {
                let i = choose|i: int| 0 <= i < b.body(x).len() && b.body(x)[i] == y;
                assert(a.body(x).contains(b.body(x)[i]) || b.body(x)[i] >= a.nodes.len());
            }
        }
    }
    assert forall|x: usize| c.has(x) && !a.has(x) implies #[trigger] made(c, x, base) by {
        if b.has(x) {
            assert(made(b, x, base));
            assert(kept(b, c, x, base2));
        } else {
            assert(made(c, x, base2));
        }
    }
}

/// Appending expressions is an advance, if what is appended is as the
/// rewrite makes nodes.
pub proof fn lemma_emits_advances(
    sv: SysView,
    t: SysView,
    m: usize,
    lim: nat,
    base: nat,
    cls: spec_fn(Opcode) -> bool,
)
    requires
        emits(sv, t, m, base, cls),
        t.nodes.len() <= usize::MAX,
        forall|op: Opcode| #[trigger] cls(op) ==> is_rewrite_op(op),
        m < base ==> forall|op: Opcode| #[trigger] cls(op) ==> is_link_op(op),
        forall|x: usize|
            t.has(x) && !sv.has(x) && #[trigger] t.opcode(x) == Opcode::AsyncCall
                ==> t.operands(x).len() == 1 && t.operands(x)[0] >= base,
    ensures
        advances(sv, t, lim, base),
{
    assert forall|x: usize| sv.is_module(x) && x >= lim implies sv.body(x).is_prefix_of(
        #[trigger] t.body(x),
    ) by {
        if x == m {
            assert(sv.body(x) =~= t.body(x).subrange(0, sv.body(x).len() as int));
        } else {
            assert(t.body(x) == sv.body(x));
            assert(sv.body(x) =~= t.body(x).subrange(0, sv.body(x).len() as int));
        }
    }
    assert forall|x: usize| sv.is_module(x) implies #[trigger] mixed(sv, t, x) by {
        if x != m {
            assert(t.body(x) == sv.body(x));
        } else {
            assert forall|j: int| 0 <= j < t.body(x).len() implies sv.body(x).contains(
                #[trigger] t.body(x)[j],
            ) || t.body(x)[j] >= sv.nodes.len() by {
                if j < sv.body(x).len() {
                    assert(sv.body(x)[j] == t.body(x)[j]);
                } else {
                    assert(t.body(x)[j] == span(sv.nodes.len(), t.nodes.len())[j - sv.body(
                        x,
                    ).len()]);
                }
            }
        }
    }
    assert forall|x: usize| t.has(x) && !sv.has(x) implies #[trigger] made(t, x, base) by {
        assert(fresh(t, x, m, cls));
    }
}

/// Erasing is an advance.
pub proof fn lemma_erases_advances(sv: SysView, t: SysView, lim: nat, base: nat)
    requires
        erases(sv, t, lim),
    ensures
        advances(sv, t, lim, base),
{
    assert forall|x: usize| sv.has(x) implies #[trigger] kept(sv, t, x, base) by {
        assert(kept(sv, t, x, sv.nodes.len()));
    }
    assert forall|x: usize| sv.is_module(x) && x >= lim implies sv.body(x).is_prefix_of(
        #[trigger] t.body(x),
    ) by {
        assert(t.body(x) == sv.body(x));
        assert(sv.body(x) =~= t.body(x).subrange(0, sv.body(x).len() as int));
    }
    assert forall|x: usize| sv.is_module(x) implies #[trigger] mixed(sv, t, x) by {
        assert(within(t.body(x), sv.body(x)));
    }
}

/// A new module with its ports is an advance.
pub proof fn lemma_add_module_advances(
    sv: SysView,
    name: Seq<char>,
    ports: Seq<PortView>,
    m: usize,
    lim: nat,
    base: nat,
)
    ensures
        advances(sv, sv.add_module(name, ports).with_current(m), lim, base),
{
    let t = sv.add_module(name, ports).with_current(m);
    assert forall|x: usize| sv.has(x) implies #[trigger] kept(sv, t, x, base) by {
        lemma_kept_refl(sv, x, base);
    }
    assert forall|x: usize| sv.is_module(x) && x >= lim implies sv.body(x).is_prefix_of(
        #[trigger] t.body(x),
    ) by {
        assert(sv.body(x) =~= t.body(x).subrange(0, sv.body(x).len() as int));
    }
    assert forall|x: usize| sv.is_module(x) implies #[trigger] mixed(sv, t, x) by {}
    assert forall|x: usize| t.has(x) && !sv.has(x) implies #[trigger] made(t, x, base) by {}
}


/// An advance from a later beginning is one from an earlier beginning.
pub proof fn lemma_advances_lower(a: SysView, b: SysView, lim: nat, base: nat, base2: nat)
    requires
        advances(a, b, lim, base),
        base2 <= base,
    ensures
        advances(a, b, lim, base2),
{
    assert forall|x: usize| a.has(x) implies #[trigger] kept(a, b, x, base2) by {
        assert(kept(a, b, x, base));
    }
    assert forall|x: usize| a.is_module(x) implies #[trigger] mixed(a, b, x) by {}
    assert forall|x: usize| b.has(x) && !a.has(x) implies #[trigger] made(b, x, base2) by {
        assert(made(b, x, base));
    }
}


/// After an expression was erased no body holds it, and every body holds
/// only what it held before.
pub proof fn lemma_erase_gone(sv: SysView, key: usize, x: usize)
    requires
        sv.wf(),
        sv.is_module(x),
    ensures
        sv.erase(key).wf(),
        sv.erase(key).is_module(x),
        within(sv.erase(key).body(x), sv.body(x)),
        !sv.erase(key).body(x).contains(key),
{
    let t = sv.erase(key);
    sv.lemma_erase(key);
    assert(sv.node_ok(x));
    if sv.is_expr(key) && sv.is_module(sv.expr(key).parent) {
        let p = sv.expr(key).parent;
        crate::ir::lemma_remove_first(sv.body(p), key);
        if x == p {
            assert forall|j: int| 0 <= j < t.body(x).len() implies sv.body(x).contains(
                #[trigger] t.body(x)[j],
            ) by {
                let y = t.body(x)[j];
                assert(t.body(x).contains(y));
            }
        } else {
            assert(t.body(x) == sv.body(x));
            if sv.body(x).contains(key) {
                let j = choose|j: int| 0 <= j < sv.body(x).len() && sv.body(x)[j] == key;
                assert(sv.expr(sv.body(x)[j]).parent == x);
            }
        }
    } else {
        assert(t == sv);
        if sv.body(x).contains(key) {
            let j = choose|j: int| 0 <= j < sv.body(x).len() && sv.body(x)[j] == key;
            assert(sv.is_expr(sv.body(x)[j]));
            assert(sv.node_ok(key));
        }
    }
}

/// After the marked keys among the `n` greatest below `bound` were erased,
/// no body holds the marked key `y` among them.
pub proof fn lemma_erase_down_gone(
    sv: SysView,
    marks: Seq<usize>,
    bound: nat,
    n: nat,
    lim: nat,
    x: usize,
    y: usize,
)
    requires
        sv.wf(),
        n <= bound,
        all_below(marks, lim),
        sv.is_module(x),
        marks.contains(y),
        bound - n <= y < bound,
    ensures
        !erase_down(sv, marks, bound, n).body(x).contains(y),
    decreases n,
{
    let prev = erase_down(sv, marks, bound, (n - 1) as nat);
    let key = (bound - n) as usize;
    lemma_erase_down(sv, marks, bound, (n - 1) as nat, lim);
    assert(kept(sv, prev, x, sv.nodes.len()));
    if y == key {
        lemma_erase_gone(prev, key, x);
    } else {
        lemma_erase_down_gone(sv, marks, bound, (n - 1) as nat, lim, x, y);
        if marks.contains(key) {
            lemma_erase_gone(prev, key, x);
            let t = prev.erase(key);
            if t.body(x).contains(y) {
                let j = choose|j: int| 0 <= j < t.body(x).len() && t.body(x)[j] == y;
                assert(prev.body(x).contains(t.body(x)[j]));
            }
        }
    }
}

/// After keys were erased in order, no body holds any of them, and every
/// body holds only what it held before.
pub proof fn lemma_erase_each_gone(sv: SysView, keys: Seq<usize>, n: nat, x: usize)
    requires
        sv.wf(),
        n <= keys.len(),
        sv.is_module(x),
    ensures
        erase_each(sv, keys, n).wf(),
        erase_each(sv, keys, n).is_module(x),
        within(erase_each(sv, keys, n).body(x), sv.body(x)),
        forall|i: int| 0 <= i < n ==> !erase_each(sv, keys, n).body(x).contains(#[trigger] keys[i]),
    decreases n,
{
    if n == 0 {
        assert forall|j: int| 0 <= j < sv.body(x).len() implies sv.body(x).contains(
            #[trigger] sv.body(x)[j],
        ) by {}
    } else {
        let prev = erase_each(sv, keys, (n - 1) as nat);
        let key = keys[n - 1];
        let t = prev.erase(key);
        lemma_erase_each_gone(sv, keys, (n - 1) as nat, x);
        prev.lemma_erase(key);
        assert(prev.node_ok(x));
        if prev.is_expr(key) && prev.is_module(prev.expr(key).parent) {
            let p = prev.expr(key).parent;
            crate::ir::lemma_remove_first(prev.body(p), key);
            if x == p {
                assert forall|j: int| 0 <= j < t.body(x).len() implies sv.body(x).contains(
                    #[trigger] t.body(x)[j],
                ) by {
                    let y = t.body(x)[j];
                    assert(t.body(x).contains(y));
                    assert(prev.body(x).contains(y));
                    let i = choose|i: int| 0 <= i < prev.body(x).len() && prev.body(x)[i] == y;
                    assert(sv.body(x).contains(prev.body(x)[i]));
                }
                assert forall|i: int| 0 <= i < n implies !t.body(x).contains(
                    #[trigger] keys[i],
                ) by {
                    if t.body(x).contains(keys[i]) && keys[i] != key {
                        assert(prev.body(x).contains(keys[i]));
                    }
                }
            } else {
                assert(t.body(x) == prev.body(x));
                assert forall|i: int| 0 <= i < n implies !t.body(x).contains(
                    #[trigger] keys[i],
                ) by {
                    if prev.body(x).contains(key) {
                        let j = choose|j: int| 0 <= j < prev.body(x).len() && prev.body(x)[j] == key;
                        assert(prev.expr(prev.body(x)[j]).parent == x);
                    }
                }
            }
        } else {
            assert(t == prev);
            assert forall|i: int| 0 <= i < n implies !t.body(x).contains(#[trigger] keys[i]) by {
                if prev.body(x).contains(key) {
                    let j = choose|j: int| 0 <= j < prev.body(x).len() && prev.body(x)[j] == key;
                    assert(prev.is_expr(prev.body(x)[j]));
                    assert(prev.node_ok(key));
                }
            }
        }
    }
}


/// `c` is a push.
pub open spec fn is_push(sv: SysView, c: usize) -> bool {
    sv.is_expr(c) && sv.opcode(c) == Opcode::FIFOPush
}

/// The scan has missed nothing of the caller expressions of `sv` with a key
/// below `bound`: without a bind among them it has none, and it has
/// recorded the value of every push among them.
pub open spec fn scan_complete(sv: SysView, callers: Seq<usize>, bound: nat, st: ScanView) -> bool {
    &&& st.bind.is_none() ==> forall|c: usize|
        c < bound && callers.contains(c) ==> !(#[trigger] sv.is_bind(c))
    &&& forall|c: usize|
        c < bound && callers.contains(c) && #[trigger] is_push(sv, c) ==> st.values.contains(
            sv.operands(c)[1],
        )
}

/// A scan misses nothing.
pub proof fn lemma_scan_complete(sv: SysView, callers: Seq<usize>, c: nat, lo: nat)
    requires
        sv.wf(),
        sv.is_module(sv.current),
        c <= sv.nodes.len(),
        lo <= sv.nodes.len(),
        scan_callers(scan_start(sv), callers, c).sys.nodes.len() <= usize::MAX,
    ensures
        scan_complete(sv, callers, c, scan_callers(scan_start(sv), callers, c)),
    decreases c,
{
    let st = scan_callers(scan_start(sv), callers, c);
    if c > 0 {
        let prev = scan_callers(scan_start(sv), callers, (c - 1) as nat);
        let k = (c - 1) as usize;
        assert(prev.sys.nodes.len() <= st.sys.nodes.len());
        lemma_scan_complete(sv, callers, (c - 1) as nat, lo);
        lemma_scan_callers(sv, callers, (c - 1) as nat, lo);
        assert(kept(sv, prev.sys, k, lo));
        assert(sv.node_ok(k));
        assert forall|i: int| 0 <= i < prev.values.len() implies st.values.contains(
            #[trigger] prev.values[i],
        ) by {
            assert(st.values[i] == prev.values[i]);
        }
        if callers.contains(k) && prev.sys.is_expr(k) && prev.sys.opcode(k) == Opcode::FIFOPush {
            let value = prev.sys.operands(k)[1];
            assert(st.values[prev.values.len() as int] == value);
            assert(st.values.contains(value));
        }
        assert forall|cc: usize|
            cc < c && callers.contains(cc) && #[trigger] is_push(sv, cc) implies st.values.contains(
            sv.operands(cc)[1],
        ) by {
            if cc < c - 1 {
                let v = sv.operands(cc)[1];
                assert(prev.values.contains(v));
                let i = choose|i: int| 0 <= i < prev.values.len() && prev.values[i] == v;
                assert(st.values.contains(prev.values[i]));
            }
        }
    }
}


/// The pushes among `callers` with a key below `c`, by rising key.
pub open spec fn pushes_below(sv: SysView, callers: Seq<usize>, c: nat) -> Seq<usize>
    decreases c,
{
    if c == 0 {
        Seq::empty()
    } else {
        let prev = pushes_below(sv, callers, (c - 1) as nat);
        let k = (c - 1) as usize;
        if callers.contains(k) && is_push(sv, k) {
            prev.push(k)
        } else {
            prev
        }
    }
}

/// The values that `pushes` push, in order.
pub open spec fn pushed_values(sv: SysView, pushes: Seq<usize>) -> Seq<usize> {
    Seq::new(pushes.len(), |i: int| sv.operands(pushes[i])[1])
}

/// The FIFOs that `pushes` push to, in order.
pub open spec fn pushed_fifos(sv: SysView, pushes: Seq<usize>) -> Seq<usize> {
    Seq::new(pushes.len(), |i: int| sv.operands(pushes[i])[0])
}

/// The pushes below a bound are pushes among the callers, below the bound.
pub proof fn lemma_pushes_below(sv: SysView, callers: Seq<usize>, c: nat)
    requires
        c <= usize::MAX + 1,
    ensures
        forall|i: int|
            0 <= i < pushes_below(sv, callers, c).len() ==> (#[trigger] pushes_below(
                sv,
                callers,
                c,
            )[i]) < c && callers.contains(pushes_below(sv, callers, c)[i]) && is_push(
                sv,
                pushes_below(sv, callers, c)[i],
            ),
    decreases c,
{
    if c > 0 {
        lemma_pushes_below(sv, callers, (c - 1) as nat);
        let prev = pushes_below(sv, callers, (c - 1) as nat);
        let p = pushes_below(sv, callers, c);
        assert forall|i: int| 0 <= i < p.len() implies (#[trigger] p[i]) < c && callers.contains(
            p[i],
        ) && is_push(sv, p[i]) by {
            if i < prev.len() {
                assert(p[i] == prev[i]);
            }
        }
    }
}

/// The scan records every push among the callers: its value and its FIFO,
/// one pair for each push, by rising key.
pub proof fn lemma_scan_exact(sv: SysView, callers: Seq<usize>, c: nat, lo: nat)
    requires
        sv.wf(),
        sv.is_module(sv.current),
        c <= sv.nodes.len(),
        lo <= sv.nodes.len(),
        scan_callers(scan_start(sv), callers, c).sys.nodes.len() <= usize::MAX,
    ensures
        scan_callers(scan_start(sv), callers, c).values == pushed_values(
            sv,
            pushes_below(sv, callers, c),
        ),
        scan_callers(scan_start(sv), callers, c).fifos == pushed_fifos(
            sv,
            pushes_below(sv, callers, c),
        ),
    decreases c,
{
    let st = scan_callers(scan_start(sv), callers, c);
    let p = pushes_below(sv, callers, c);
    if c == 0 {
        assert(st.values =~= pushed_values(sv, p));
        assert(st.fifos =~= pushed_fifos(sv, p));
    } else {
        let prev = scan_callers(scan_start(sv), callers, (c - 1) as nat);
        let q = pushes_below(sv, callers, (c - 1) as nat);
        let k = (c - 1) as usize;
        assert(prev.sys.nodes.len() <= st.sys.nodes.len());
        lemma_scan_exact(sv, callers, (c - 1) as nat, lo);
        lemma_scan_callers(sv, callers, (c - 1) as nat, lo);
        assert(kept(sv, prev.sys, k, lo));
        assert(sv.node_ok(k));
        if callers.contains(k) && is_push(sv, k) {
            assert(p == q.push(k));
            assert(st.values =~= pushed_values(sv, p));
            assert(st.fifos =~= pushed_fifos(sv, p));
        } else {
            assert(p == q);
            assert(st.values == prev.values);
            assert(st.fifos == prev.fifos);
        }
    }
}

/// A system that keeps the nodes of another has the same pushes among the
/// callers below a bound within the other.
pub proof fn lemma_pushes_same(sv: SysView, t: SysView, callers: Seq<usize>, c: nat, lo: nat)
    requires
        c <= sv.nodes.len() <= t.nodes.len(),
        c <= usize::MAX + 1,
        forall|x: usize| sv.has(x) ==> #[trigger] kept(sv, t, x, lo),
    ensures
        pushes_below(t, callers, c) == pushes_below(sv, callers, c),
        pushed_values(t, pushes_below(t, callers, c)) == pushed_values(
            sv,
            pushes_below(sv, callers, c),
        ),
        pushed_fifos(t, pushes_below(t, callers, c)) == pushed_fifos(
            sv,
            pushes_below(sv, callers, c),
        ),
    decreases c,
{
    if c > 0 {
        let k = (c - 1) as usize;
        lemma_pushes_same(sv, t, callers, (c - 1) as nat, lo);
        assert(kept(sv, t, k, lo));
    }
    lemma_pushes_below(sv, callers, c);
    let p = pushes_below(sv, callers, c);
    assert forall|i: int| 0 <= i < p.len() implies sv.operands(#[trigger] p[i]) == t.operands(
        p[i],
    ) by {
        assert(kept(sv, t, p[i], lo));
    }
    assert(pushed_values(t, p) =~= pushed_values(sv, p));
    assert(pushed_fifos(t, p) =~= pushed_fifos(sv, p));
}

/// Beyond the keys of the callers there is no push among them.
pub proof fn lemma_pushes_beyond(sv: SysView, callers: Seq<usize>, lim: nat, d: nat)
    requires
        all_below(callers, lim),
        lim <= d <= usize::MAX + 1,
    ensures
        pushes_below(sv, callers, d) == pushes_below(sv, callers, lim),
    decreases d,
{
    if d > lim {
        let k = (d - 1) as usize;
        lemma_pushes_beyond(sv, callers, lim, (d - 1) as nat);
        if callers.contains(k) {
            let i = choose|i: int| 0 <= i < callers.len() && callers[i] == k;
            assert(callers[i] < lim);
        }
    }
}

} // verus!
