//! The intermediate representation: opcodes, data types, and the mathematical
//! model of a system as an arena of nodes addressed by integer keys.

use vstd::prelude::*;

verus! {

/// Sub-codes of two-operand arithmetic and logic.
#[derive(Clone, Copy, PartialEq, Eq, Structural, Debug)]
pub enum Binary {
    Add,
    Sub,
    Mul,
    BitwiseAnd,
    BitwiseOr,
    BitwiseXor,
    Shl,
    Shr,
    Mod,
}

/// Sub-codes of type conversions.
#[derive(Clone, Copy, PartialEq, Eq, Structural, Debug)]
pub enum Cast {
    BitCast,
    ZExt,
    SExt,
}

/// Sub-codes of intrinsics that act on the enclosing block.
#[derive(Clone, Copy, PartialEq, Eq, Structural, Debug)]
pub enum BlockIntrinsic {
    Value,
    Cycled,
    WaitUntil,
    Finish,
    Assert,
    Barrier,
}

/// Sub-codes of side-effect-free intrinsics.
#[derive(Clone, Copy, PartialEq, Eq, Structural, Debug)]
pub enum PureIntrinsic {
    FIFOValid,
    FIFOPeek,
    ModuleTriggered,
    ValueValid,
}

/// What an expression computes or does.
#[allow(inconsistent_fields)]
#[derive(Clone, Copy, PartialEq, Eq, Structural, Debug)]
pub enum Opcode {
    Load,
    Store,
    FIFOPop,
    FIFOPush,
    Bind,
    AsyncCall,
    Slice,
    Select,
    Concat,
    Log,
    Binary { binop: Binary },
    Cast { cast: Cast },
    BlockIntrinsic { intrinsic: BlockIntrinsic },
    PureIntrinsic { intrinsic: PureIntrinsic },
}

/// The type of the value that a node carries.
#[derive(Clone, Copy, PartialEq, Eq, Structural, Debug)]
pub enum DataType {
    Void,
    Int(usize),
    UInt(usize),
    Bits(usize),
}

/// The kinds of node that an arena holds.
#[derive(Clone, Copy, PartialEq, Eq, Structural, Debug)]
pub enum NodeKind {
    Module,
    FIFO,
    IntImm,
    Expr,
}

/// The opcode of a barrier marker.
pub open spec fn barrier_opcode() -> Opcode {
    Opcode::BlockIntrinsic { intrinsic: BlockIntrinsic::Barrier }
}

/// The opcode of a wait on a condition.
pub open spec fn wait_opcode() -> Opcode {
    Opcode::BlockIntrinsic { intrinsic: BlockIntrinsic::WaitUntil }
}

/// The opcode of a probe that tells whether a FIFO holds a value.
pub open spec fn valid_opcode() -> Opcode {
    Opcode::PureIntrinsic { intrinsic: PureIntrinsic::FIFOValid }
}

/// The opcode of the given two-operand operation.
pub open spec fn binary_opcode(binop: Binary) -> Opcode {
    Opcode::Binary { binop }
}

/// The opcode of a reinterpreting cast.
pub open spec fn bitcast_opcode() -> Opcode {
    Opcode::Cast { cast: Cast::BitCast }
}

/// How many operands an expression with opcode `op` may have.
pub open spec fn arity_ok(op: Opcode, n: nat) -> bool {
    match op {
        Opcode::Load => n >= 1,
        Opcode::Store => n >= 2,
        Opcode::FIFOPop => n == 1,
        Opcode::FIFOPush => n == 2,
        Opcode::Bind => n >= 1,
        Opcode::AsyncCall => n == 1,
        Opcode::Slice => n == 3,
        Opcode::Binary { .. } => n == 2,
        Opcode::Cast { .. } => n == 1,
        Opcode::BlockIntrinsic { intrinsic } => (intrinsic == BlockIntrinsic::Barrier || intrinsic
            == BlockIntrinsic::WaitUntil) ==> n == 1,
        Opcode::PureIntrinsic { intrinsic } => intrinsic == PureIntrinsic::FIFOValid ==> n == 1,
        _ => true,
    }
}

/// A module: its name, the keys of its FIFO ports, and the keys of its body in program order.
pub struct ModuleView {
    pub name: Seq<char>,
    pub ports: Seq<usize>,
    pub body: Seq<usize>,
}

/// A FIFO port of the module with key `module`.
pub struct FifoView {
    pub name: Seq<char>,
    pub dtype: DataType,
    pub module: usize,
}

/// An integer constant.
pub struct ImmView {
    pub dtype: DataType,
    pub value: u64,
}

/// An expression of the module with key `parent`.
pub struct ExprView {
    pub opcode: Opcode,
    pub operands: Seq<usize>,
    pub dtype: DataType,
    pub parent: usize,
}

/// One node of the arena.
pub enum NodeView {
    Module(ModuleView),
    Fifo(FifoView),
    IntImm(ImmView),
    Expr(ExprView),
}

/// The name and type asked of one port of a new module.
pub struct PortView {
    pub name: Seq<char>,
    pub dtype: DataType,
}

/// A system: the arena, in which a node's key is its index, and the key of the
/// module that new expressions are appended to.
pub struct SysView {
    pub nodes: Seq<NodeView>,
    pub current: usize,
}

/// The first of `ops` alone, where there is one.
pub open spec fn first_only(ops: Seq<usize>) -> Seq<usize> {
    if ops.len() > 0 {
        seq![ops[0]]
    } else {
        Seq::empty()
    }
}

/// The node `x` is in `t` what it is in `sv`, but that a module's body may
/// differ and a bind with a key from `lo` on may have more arguments.
pub open spec fn kept(sv: SysView, t: SysView, x: usize, lo: nat) -> bool {
    match (sv.nodes[x as int], t.nodes[x as int]) {
        (NodeView::Module(a), NodeView::Module(b)) => a.name == b.name && a.ports == b.ports,
        (NodeView::Fifo(a), NodeView::Fifo(b)) => a == b,
        (NodeView::IntImm(a), NodeView::IntImm(b)) => a == b,
        (NodeView::Expr(a), NodeView::Expr(b)) => {
            &&& a.opcode == b.opcode
            &&& a.dtype == b.dtype
            &&& a.parent == b.parent
            &&& a.operands.is_prefix_of(b.operands)
            &&& (a.opcode != Opcode::Bind || x < lo) ==> a.operands == b.operands
        },
        _ => false,
    }
}

/// `s` without the first occurrence of `k`.
pub open spec fn remove_first(s: Seq<usize>, k: usize) -> Seq<usize>
    decreases s.len(),
{
    if s.len() == 0 {
        s
    } else if s[0] == k {
        s.drop_first()
    } else {
        seq![s[0]] + remove_first(s.drop_first(), k)
    }
}

impl SysView {
    pub open spec fn len(self) -> nat {
        self.nodes.len()
    }

    pub open spec fn has(self, k: usize) -> bool {
        (k as int) < self.nodes.len()
    }

    pub open spec fn is_module(self, k: usize) -> bool {
        self.has(k) && self.nodes[k as int] is Module
    }

    pub open spec fn is_fifo(self, k: usize) -> bool {
        self.has(k) && self.nodes[k as int] is Fifo
    }

    pub open spec fn is_imm(self, k: usize) -> bool {
        self.has(k) && self.nodes[k as int] is IntImm
    }

    pub open spec fn is_expr(self, k: usize) -> bool {
        self.has(k) && self.nodes[k as int] is Expr
    }

    pub open spec fn module(self, k: usize) -> ModuleView {
        self.nodes[k as int]->Module_0
    }

    pub open spec fn fifo(self, k: usize) -> FifoView {
        self.nodes[k as int]->Fifo_0
    }

    pub open spec fn imm(self, k: usize) -> ImmView {
        self.nodes[k as int]->IntImm_0
    }

    pub open spec fn expr(self, k: usize) -> ExprView {
        self.nodes[k as int]->Expr_0
    }

    pub open spec fn opcode(self, k: usize) -> Opcode {
        self.expr(k).opcode
    }

    pub open spec fn operands(self, k: usize) -> Seq<usize> {
        self.expr(k).operands
    }

    pub open spec fn body(self, m: usize) -> Seq<usize> {
        self.module(m).body
    }

    pub open spec fn ports(self, m: usize) -> Seq<usize> {
        self.module(m).ports
    }

    /// The kind of the node with key `k`.
    pub open spec fn kind(self, k: usize) -> NodeKind {
        match self.nodes[k as int] {
            NodeView::Module(_) => NodeKind::Module,
            NodeView::Fifo(_) => NodeKind::FIFO,
            NodeView::IntImm(_) => NodeKind::IntImm,
            NodeView::Expr(_) => NodeKind::Expr,
        }
    }

    /// The data type of the value with key `k`; a module carries no value.
    pub open spec fn dtype_of(self, k: usize) -> DataType {
        match self.nodes[k as int] {
            NodeView::Module(_) => DataType::Void,
            NodeView::Fifo(f) => f.dtype,
            NodeView::IntImm(i) => i.dtype,
            NodeView::Expr(e) => e.dtype,
        }
    }

    /// The key that the next new node gets.
    pub open spec fn next_key(self) -> usize {
        self.nodes.len() as usize
    }

    /// Every key in `keys` addresses a node.
    pub open spec fn has_all(self, keys: Seq<usize>) -> bool {
        forall|i: int| 0 <= i < keys.len() ==> self.has(#[trigger] keys[i])
    }

    pub open spec fn expr_ok(self, k: usize) -> bool {
        let e = self.expr(k);
        &&& self.is_module(e.parent)
        &&& e.parent < k
        &&& arity_ok(e.opcode, e.operands.len())
        &&& self.has_all(e.operands)
        &&& e.opcode != Opcode::Bind ==> forall|i: int|
            0 <= i < e.operands.len() ==> #[trigger] e.operands[i] < k
    }

    pub open spec fn module_ok(self, m: usize) -> bool {
        let md = self.module(m);
        &&& forall|j: int|
            0 <= j < md.body.len() ==> self.is_expr(#[trigger] md.body[j]) && self.expr(
                md.body[j],
            ).parent == m
        &&& md.body.no_duplicates()
        &&& forall|j: int|
            0 <= j < md.ports.len() ==> self.is_fifo(#[trigger] md.ports[j]) && self.fifo(
                md.ports[j],
            ).module == m
    }

    pub open spec fn node_ok(self, k: usize) -> bool {
        match self.nodes[k as int] {
            NodeView::Module(_) => self.module_ok(k),
            NodeView::Fifo(f) => self.is_module(f.module),
            NodeView::IntImm(_) => true,
            NodeView::Expr(_) => self.expr_ok(k),
        }
    }

    /// The arena is well formed: parents are modules and precede their
    /// expressions, operands exist and, but for a bind, precede their user;
    /// bodies list each of their expressions once.
    pub open spec fn wf(self) -> bool {
        &&& self.nodes.len() <= usize::MAX
        &&& forall|k: usize| self.has(k) ==> #[trigger] self.node_ok(k)
    }

    /// New expressions can be appended: the cursor stands on a module.
    pub open spec fn ready(self) -> bool {
        self.wf() && self.is_module(self.current) && self.nodes.len() < usize::MAX
    }

    /// The system with the cursor on module `m`.
    pub open spec fn with_current(self, m: usize) -> SysView {
        SysView { nodes: self.nodes, current: m }
    }

    /// The system after a new integer constant.
    pub open spec fn add_imm(self, dtype: DataType, value: u64) -> SysView {
        SysView {
            nodes: self.nodes.push(NodeView::IntImm(ImmView { dtype, value })),
            current: self.current,
        }
    }

    /// The system after a new expression was appended to the current module's
    /// body. Its key is `self.next_key()`.
    pub open spec fn emit(self, opcode: Opcode, operands: Seq<usize>, dtype: DataType) -> SysView {
        let key = self.next_key();
        let m = self.current;
        let host = self.module(m);
        SysView {
            nodes: Seq::new(
                self.nodes.len() + 1,
                |i: int|
                    if i == self.nodes.len() {
                        NodeView::Expr(ExprView { opcode, operands, dtype, parent: m })
                    } else if i == m {
                        NodeView::Module(
                            ModuleView {
                                name: host.name,
                                ports: host.ports,
                                body: host.body.push(key),
                            },
                        )
                    } else {
                        self.nodes[i]
                    },
            ),
            current: m,
        }
    }

    /// The system after a new module with the given ports. The module's key is
    /// `self.next_key()`; its ports follow it, in order.
    pub open spec fn add_module(self, name: Seq<char>, ports: Seq<PortView>) -> SysView {
        let m = self.next_key();
        SysView {
            nodes: self.nodes.push(
                NodeView::Module(
                    ModuleView {
                        name,
                        ports: Seq::new(ports.len(), |i: int| (m + 1 + i) as usize),
                        body: Seq::empty(),
                    },
                ),
            ) + Seq::new(
                ports.len(),
                |i: int|
                    NodeView::Fifo(
                        FifoView { name: ports[i].name, dtype: ports[i].dtype, module: m },
                    ),
            ),
            current: self.current,
        }
    }

    /// The system after `arg` became one more operand of the expression `bind`.
    pub open spec fn attach(self, bind: usize, arg: usize) -> SysView {
        let e = self.expr(bind);
        SysView {
            nodes: Seq::new(
                self.nodes.len(),
                |i: int|
                    if i == bind {
                        NodeView::Expr(
                            ExprView {
                                opcode: e.opcode,
                                operands: e.operands.push(arg),
                                dtype: e.dtype,
                                parent: e.parent,
                            },
                        )
                    } else {
                        self.nodes[i]
                    },
            ),
            current: self.current,
        }
    }

    /// The system after the expression `k` left its parent's body. Where `k`
    /// is no expression, or is in no body, nothing changes.
    pub open spec fn erase(self, k: usize) -> SysView {
        if self.is_expr(k) && self.is_module(self.expr(k).parent) {
            let m = self.expr(k).parent;
            let host = self.module(m);
            SysView {
                nodes: Seq::new(
                    self.nodes.len(),
                    |i: int|
                        if i == m {
                            NodeView::Module(
                                ModuleView {
                                    name: host.name,
                                    ports: host.ports,
                                    body: remove_first(host.body, k),
                                },
                            )
                        } else {
                            self.nodes[i]
                        },
                ),
                current: self.current,
            }
        } else {
            self
        }
    }

    /// The first port of module `callee` with the given name, if there is one.
    pub open spec fn find_port(self, callee: usize, name: Seq<char>) -> Option<usize> {
        self.find_port_from(callee, name, 0)
    }

    pub open spec fn find_port_from(self, callee: usize, name: Seq<char>, i: nat) -> Option<usize>
        decreases self.ports(callee).len() - i,
    {
        let ports = self.ports(callee);
        if i >= ports.len() {
            None
        } else if self.fifo(ports[i as int]).name == name {
            Some(ports[i as int])
        } else {
            self.find_port_from(callee, name, i + 1)
        }
    }

    /// The first module with the given name, if there is one.
    pub open spec fn find_module(self, name: Seq<char>) -> Option<usize> {
        self.find_module_from(name, 0)
    }

    pub open spec fn find_module_from(self, name: Seq<char>, k: nat) -> Option<usize>
        decreases self.nodes.len() - k,
    {
        if k >= self.nodes.len() {
            None
        } else if self.nodes[k as int] is Module && self.nodes[k as int]->Module_0.name == name {
            Some(k as usize)
        } else {
            self.find_module_from(name, k + 1)
        }
    }
}


/// Removing the first occurrence of `k` keeps the other elements and their
/// order; where nothing occurs twice, `k` is gone afterwards.
pub proof fn lemma_remove_first(s: Seq<usize>, k: usize)
    ensures
        forall|x: usize| x != k ==> (remove_first(s, k).contains(x) <==> s.contains(x)),
        remove_first(s, k).contains(k) ==> s.contains(k),
        s.no_duplicates() ==> remove_first(s, k).no_duplicates() && !remove_first(s, k).contains(k),
        !s.contains(k) ==> remove_first(s, k) == s,
        s.contains(k) ==> remove_first(s, k).len() + 1 == s.len(),
    decreases s.len(),
{
    let r = remove_first(s, k);
    if s.len() == 0 {
    } else {
        let t = s.drop_first();
        lemma_remove_first(t, k);
        let rt = remove_first(t, k);
        assert forall|x: usize| s.contains(x) <==> (x == s[0] || t.contains(x)) by {
            if s.contains(x) {
                let i = choose|i: int| 0 <= i < s.len() && s[i] == x;
                if i > 0 {
                    assert(t[i - 1] == x);
                }
            }
            if t.contains(x) {
                let i = choose|i: int| 0 <= i < t.len() && t[i] == x;
                assert(s[i + 1] == x);
            }
            if x == s[0] {
                assert(s[0] == x);
            }
        }
        if s.no_duplicates() {
            assert forall|i: int, j: int| 0 <= i < t.len() && 0 <= j < t.len() && i != j implies t[i]
                != t[j] by {
                assert(s[i + 1] != s[j + 1]);
            }
            assert(!t.contains(s[0])) by {
                if t.contains(s[0]) {
                    let i = choose|i: int| 0 <= i < t.len() && t[i] == s[0];
                    assert(s[i + 1] == s[0]);
                }
            }
        }
        if s[0] == k {
            assert(r == t);
        } else {
            let h = seq![s[0]];
            assert(r == h + rt);
            assert forall|x: usize| r.contains(x) <==> (x == s[0] || rt.contains(x)) by {
                if r.contains(x) {
                    let i = choose|i: int| 0 <= i < r.len() && r[i] == x;
                    if i > 0 {
                        assert(rt[i - 1] == x);
                    }
                }
                if rt.contains(x) {
                    let i = choose|i: int| 0 <= i < rt.len() && rt[i] == x;
                    assert(r[i + 1] == x);
                }
                if x == s[0] {
                    assert(r[0] == x);
                }
            }
            if s.no_duplicates() {
                assert forall|i: int, j: int| 0 <= i < r.len() && 0 <= j < r.len() && i != j implies r[i]
                    != r[j] by {
                    if i == 0 {
                        assert(rt[j - 1] == r[j]);
                        assert(rt.contains(r[j]));
                    } else if j == 0 {
                        assert(rt[i - 1] == r[i]);
                        assert(rt.contains(r[i]));
                    } else {
                        assert(rt[i - 1] == r[i]);
                        assert(rt[j - 1] == r[j]);
                    }
                }
            }
            if !s.contains(k) {
                assert(rt == t);
                assert(r =~= s);
            }
        }
    }
}

impl SysView {
    /// A new constant keeps the arena well formed.
    pub proof fn lemma_add_imm(self, dtype: DataType, value: u64)
        requires
            self.wf(),
            self.nodes.len() < usize::MAX,
        ensures
            self.add_imm(dtype, value).wf(),
    {
        let t = self.add_imm(dtype, value);
        assert forall|k: usize| t.has(k) implies #[trigger] t.node_ok(k) by {
            if self.has(k) {
                assert(self.node_ok(k));
            }
        }
    }

    /// A new expression whose operands exist keeps the arena well formed.
    pub proof fn lemma_emit(self, opcode: Opcode, operands: Seq<usize>, dtype: DataType)
        requires
            self.ready(),
            arity_ok(opcode, operands.len()),
            self.has_all(operands),
        ensures
            self.emit(opcode, operands, dtype).wf(),
            self.emit(opcode, operands, dtype).is_module(self.current),
    {
        let t = self.emit(opcode, operands, dtype);
        let m = self.current;
        let key = self.next_key();
        assert(self.node_ok(m));
        assert forall|k: usize| t.has(k) implies #[trigger] t.node_ok(k) by {
            if k == key {
                assert(t.expr_ok(k));
            } else if k == m {
                let b = self.body(m);
                let b2 = t.body(m);
                assert(b2 == b.push(key));
                assert forall|i: int, j: int| 0 <= i < b2.len() && 0 <= j < b2.len() && i != j implies b2[i]
                    != b2[j] by {
                    if i < b.len() {
                        assert(self.is_expr(b[i]));
                    }
                    if j < b.len() {
                        assert(self.is_expr(b[j]));
                    }
                }
                assert forall|j: int| 0 <= j < b2.len() implies t.is_expr(#[trigger] b2[j]) && t.expr(
                    b2[j],
                ).parent == m by {
                    if j < b.len() {
                        assert(self.is_expr(b[j]));
                    }
                }
                assert(t.module_ok(k));
            } else {
                assert(self.node_ok(k));
                match self.nodes[k as int] {
                    NodeView::Module(md) => {
                        assert forall|j: int| 0 <= j < md.body.len() implies t.is_expr(
                            #[trigger] md.body[j],
                        ) && t.expr(md.body[j]).parent == k by {
                            assert(self.is_expr(md.body[j]));
                        }
                        assert forall|j: int| 0 <= j < md.ports.len() implies t.is_fifo(
                            #[trigger] md.ports[j],
                        ) && t.fifo(md.ports[j]).module == k by {
                            assert(self.is_fifo(md.ports[j]));
                        }
                    },
                    NodeView::Fifo(f) => {},
                    NodeView::IntImm(_) => {},
                    NodeView::Expr(e) => {
                        assert(self.has_all(e.operands));
                        assert(t.has_all(e.operands));
                    },
                }
            }
        }
    }

    /// A new module with its ports keeps the arena well formed.
    pub proof fn lemma_add_module(self, name: Seq<char>, ports: Seq<PortView>)
        requires
            self.wf(),
            self.nodes.len() + 1 + ports.len() <= usize::MAX,
        ensures
            self.add_module(name, ports).wf(),
            self.add_module(name, ports).is_module(self.next_key()),
    {
        let t = self.add_module(name, ports);
        let m = self.next_key();
        assert forall|k: usize| t.has(k) implies #[trigger] t.node_ok(k) by {
            if self.has(k) {
                assert(self.node_ok(k));
                match self.nodes[k as int] {
                    NodeView::Module(md) => {
                        assert forall|j: int| 0 <= j < md.body.len() implies t.is_expr(
                            #[trigger] md.body[j],
                        ) && t.expr(md.body[j]).parent == k by {
                            assert(self.is_expr(md.body[j]));
                        }
                        assert forall|j: int| 0 <= j < md.ports.len() implies t.is_fifo(
                            #[trigger] md.ports[j],
                        ) && t.fifo(md.ports[j]).module == k by {
                            assert(self.is_fifo(md.ports[j]));
                        }
                    },
                    NodeView::Fifo(f) => {},
                    NodeView::IntImm(_) => {},
                    NodeView::Expr(e) => {
                        assert(self.has_all(e.operands));
                        assert(t.has_all(e.operands));
                    },
                }
            } else if k == m {
                let md = t.module(m);
                assert forall|j: int| 0 <= j < md.ports.len() implies t.is_fifo(
                    #[trigger] md.ports[j],
                ) && t.fifo(md.ports[j]).module == m by {
                    assert(md.ports[j] == (m + 1 + j) as usize);
                }
                assert(t.module_ok(k));
            } else {
                assert(t.nodes[k as int] is Fifo);
            }
        }
    }

    /// One more argument on a bind keeps the arena well formed.
    pub proof fn lemma_attach(self, bind: usize, arg: usize)
        requires
            self.wf(),
            self.is_expr(bind),
            self.opcode(bind) == Opcode::Bind,
            self.has(arg),
        ensures
            self.attach(bind, arg).wf(),
    {
        let t = self.attach(bind, arg);
        assert forall|k: usize| t.has(k) implies #[trigger] t.node_ok(k) by {
            assert(self.node_ok(k));
            if k == bind {
                assert(self.has_all(self.operands(bind)));
                assert(t.expr_ok(k));
            } else {
                match self.nodes[k as int] {
                    NodeView::Module(md) => {
                        assert forall|j: int| 0 <= j < md.body.len() implies t.is_expr(
                            #[trigger] md.body[j],
                        ) && t.expr(md.body[j]).parent == k by {
                            assert(self.is_expr(md.body[j]));
                        }
                        assert forall|j: int| 0 <= j < md.ports.len() implies t.is_fifo(
                            #[trigger] md.ports[j],
                        ) && t.fifo(md.ports[j]).module == k by {
                            assert(self.is_fifo(md.ports[j]));
                        }
                    },
                    NodeView::Fifo(f) => {},
                    NodeView::IntImm(_) => {},
                    NodeView::Expr(e) => {
                        assert(self.has_all(e.operands));
                        assert(t.has_all(e.operands));
                    },
                }
            }
        }
    }

    /// Taking an expression out of its parent's body keeps the arena well formed.
    pub proof fn lemma_erase(self, key: usize)
        requires
            self.wf(),
        ensures
            self.erase(key).wf(),
            self.erase(key).nodes.len() == self.nodes.len(),
    {
        let t = self.erase(key);
        if self.is_expr(key) && self.is_module(self.expr(key).parent) {
            let m = self.expr(key).parent;
            lemma_remove_first(self.body(m), key);
            assert forall|k: usize| t.has(k) implies #[trigger] t.node_ok(k) by {
                assert(self.node_ok(k));
                if k == m {
                    let b = self.body(m);
                    let b2 = t.body(m);
                    assert forall|j: int| 0 <= j < b2.len() implies t.is_expr(#[trigger] b2[j])
                        && t.expr(b2[j]).parent == m by {
                        assert(b2.contains(b2[j]));
                        assert(b.contains(b2[j]));
                        let i = choose|i: int| 0 <= i < b.len() && b[i] == b2[j];
                        assert(self.is_expr(b[i]));
                    }
                    assert forall|j: int| 0 <= j < t.ports(m).len() implies t.is_fifo(
                        #[trigger] t.ports(m)[j],
                    ) && t.fifo(t.ports(m)[j]).module == m by {
                        assert(self.is_fifo(self.ports(m)[j]));
                    }
                    assert(t.module_ok(k));
                } else {
                    match self.nodes[k as int] {
                        NodeView::Module(md) => {
                            assert forall|j: int| 0 <= j < md.body.len() implies t.is_expr(
                                #[trigger] md.body[j],
                            ) && t.expr(md.body[j]).parent == k by {
                                assert(self.is_expr(md.body[j]));
                            }
                            assert forall|j: int| 0 <= j < md.ports.len() implies t.is_fifo(
                                #[trigger] md.ports[j],
                            ) && t.fifo(md.ports[j]).module == k by {
                                assert(self.is_fifo(md.ports[j]));
                            }
                        },
                        NodeView::Fifo(f) => {},
                        NodeView::IntImm(_) => {},
                        NodeView::Expr(e) => {
                            assert(self.has_all(e.operands));
                            assert(t.has_all(e.operands));
                        },
                    }
                }
            }
        }
    }
}


impl SysView {
    /// After a probe that tells whether `fifo` holds a value.
    pub open spec fn emit_valid(self, fifo: usize) -> SysView {
        self.emit(valid_opcode(), seq![fifo], DataType::UInt(1))
    }

    /// After a pop of `fifo`.
    pub open spec fn emit_pop(self, fifo: usize) -> SysView {
        self.emit(Opcode::FIFOPop, seq![fifo], self.dtype_of(fifo))
    }

    /// After a wait until `cond` holds.
    pub open spec fn emit_wait(self, cond: usize) -> SysView {
        self.emit(wait_opcode(), seq![cond], DataType::Void)
    }

    /// After a two-operand operation, typed as its left operand.
    pub open spec fn emit_binary(self, binop: Binary, a: usize, b: usize) -> SysView {
        self.emit(binary_opcode(binop), seq![a, b], self.dtype_of(a))
    }

    /// After a reinterpreting cast of `value` to `dtype`.
    pub open spec fn emit_bitcast(self, value: usize, dtype: DataType) -> SysView {
        self.emit(bitcast_opcode(), seq![value], dtype)
    }

    /// After a slice of `base`, typed as `base`.
    pub open spec fn emit_slice(self, base: usize, start: usize, end: usize) -> SysView {
        self.emit(Opcode::Slice, seq![base, start, end], self.dtype_of(base))
    }

    /// After a bind to `callee` that has no argument yet.
    pub open spec fn emit_bind(self, callee: usize) -> SysView {
        self.emit(Opcode::Bind, seq![callee], DataType::Void)
    }

    /// After a call that fires `bind`.
    pub open spec fn emit_call(self, bind: usize) -> SysView {
        self.emit(Opcode::AsyncCall, seq![bind], DataType::Void)
    }

    /// After `value` was pushed to `fifo` as one more argument of `bind`.
    /// The push gets the key `self.next_key()`.
    pub open spec fn bind_to(self, bind: usize, fifo: usize, value: usize) -> SysView {
        self.emit(Opcode::FIFOPush, seq![fifo, value], DataType::Void).attach(
            bind,
            self.next_key(),
        )
    }

    /// The port that an argument named `name` of `bind` goes to: the first
    /// port of that name of the module that `bind` calls.
    pub open spec fn bind_target(self, bind: usize, name: Seq<char>) -> Option<usize> {
        let callee = self.operands(bind)[0];
        if self.is_module(callee) {
            self.find_port(callee, name)
        } else {
            None
        }
    }

    /// A bind whose arguments can be attached while the cursor stands on a module.
    pub open spec fn is_bind(self, k: usize) -> bool {
        self.is_expr(k) && self.opcode(k) == Opcode::Bind
    }
}


impl SysView {
    /// The node `k` is in `t` what it is here, but that a module's body may
    /// differ and a bind may have more arguments.
    pub open spec fn keeps(self, t: SysView, k: usize) -> bool {
        kept(self, t, k, 0)
    }

    /// `t` has every node of this system, each as `keeps` says.
    pub open spec fn grows_to(self, t: SysView) -> bool {
        &&& self.nodes.len() <= t.nodes.len()
        &&& forall|k: usize| self.has(k) ==> #[trigger] self.keeps(t, k)
    }

    pub proof fn lemma_grows_refl(self)
        ensures
            self.grows_to(self),
    {
        assert forall|k: usize| self.has(k) implies #[trigger] self.keeps(self, k) by {
            match self.nodes[k as int] {
                NodeView::Expr(a) => {
                    assert(a.operands.is_prefix_of(a.operands)) by {
                        assert(a.operands =~= a.operands.subrange(0, a.operands.len() as int));
                    }
                },
                _ => {},
            }
        }
    }

    pub proof fn lemma_grows_trans(self, t: SysView, u: SysView)
        requires
            self.grows_to(t),
            t.grows_to(u),
        ensures
            self.grows_to(u),
    {
        assert forall|k: usize| self.has(k) implies #[trigger] self.keeps(u, k) by {
            assert(self.keeps(t, k));
            assert(t.has(k));
            assert(t.keeps(u, k));
            match (self.nodes[k as int], t.nodes[k as int], u.nodes[k as int]) {
                (NodeView::Expr(a), NodeView::Expr(b), NodeView::Expr(c)) => {
                    assert(a.operands.is_prefix_of(c.operands)) by {
                        assert(a.operands =~= c.operands.subrange(0, a.operands.len() as int)) by {
                            assert(a.operands =~= b.operands.subrange(0, a.operands.len() as int));
                            assert(b.operands =~= c.operands.subrange(0, b.operands.len() as int));
                        }
                    }
                },
                _ => {},
            }
        }
    }

    pub proof fn lemma_with_current_grows(self, m: usize)
        ensures
            self.grows_to(self.with_current(m)),
            self.with_current(m).grows_to(self),
    {
        self.lemma_grows_refl();
        assert forall|k: usize| self.has(k) implies #[trigger] self.keeps(self.with_current(m), k) by {
            assert(self.keeps(self, k));
        }
        assert forall|k: usize| self.has(k) implies #[trigger] self.with_current(m).keeps(self, k) by {
            assert(self.keeps(self, k));
        }
    }

    pub proof fn lemma_add_imm_grows(self, dtype: DataType, value: u64)
        ensures
            self.grows_to(self.add_imm(dtype, value)),
    {
        self.lemma_grows_refl();
        let t = self.add_imm(dtype, value);
        assert forall|k: usize| self.has(k) implies #[trigger] self.keeps(t, k) by {
            assert(self.keeps(self, k));
        }
    }

    pub proof fn lemma_emit_grows(self, opcode: Opcode, operands: Seq<usize>, dtype: DataType)
        requires
            self.is_module(self.current),
        ensures
            self.grows_to(self.emit(opcode, operands, dtype)),
    {
        self.lemma_grows_refl();
        let t = self.emit(opcode, operands, dtype);
        assert forall|k: usize| self.has(k) implies #[trigger] self.keeps(t, k) by {
            assert(self.keeps(self, k));
        }
    }

    pub proof fn lemma_add_module_grows(self, name: Seq<char>, ports: Seq<PortView>)
        ensures
            self.grows_to(self.add_module(name, ports)),
    {
        self.lemma_grows_refl();
        let t = self.add_module(name, ports);
        assert forall|k: usize| self.has(k) implies #[trigger] self.keeps(t, k) by {
            assert(self.keeps(self, k));
        }
    }

    pub proof fn lemma_attach_grows(self, bind: usize, arg: usize)
        requires
            self.is_bind(bind),
        ensures
            self.grows_to(self.attach(bind, arg)),
    {
        self.lemma_grows_refl();
        let t = self.attach(bind, arg);
        assert forall|k: usize| self.has(k) implies #[trigger] self.keeps(t, k) by {
            assert(self.keeps(self, k));
            if k == bind {
                let a = self.operands(bind);
                assert(a =~= a.push(arg).subrange(0, a.len() as int));
            }
        }
    }

    pub proof fn lemma_erase_grows(self, key: usize)
        ensures
            self.grows_to(self.erase(key)),
    {
        self.lemma_grows_refl();
        let t = self.erase(key);
        assert forall|k: usize| self.has(k) implies #[trigger] self.keeps(t, k) by {
            assert(self.keeps(self, k));
        }
    }

    pub proof fn lemma_bind_to_grows(self, bind: usize, fifo: usize, value: usize)
        requires
            self.is_module(self.current),
            self.is_bind(bind),
        ensures
            self.grows_to(self.bind_to(bind, fifo, value)),
    {
        let ops = seq![fifo, value];
        self.lemma_emit_grows(Opcode::FIFOPush, ops, DataType::Void);
        let t = self.emit(Opcode::FIFOPush, ops, DataType::Void);
        assert(self.keeps(t, bind));
        t.lemma_attach_grows(bind, self.next_key());
        self.lemma_grows_trans(t, t.attach(bind, self.next_key()));
    }
}

} // verus!
