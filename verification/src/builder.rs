//! The system builder: the arena that owns every node, and the operations
//! that read it, append to it and take expressions out of it.

use crate::ir::{
    arity_ok, Binary, BlockIntrinsic, Cast, DataType, ExprView, FifoView, ImmView, ModuleView,
    NodeKind, NodeView, Opcode, PortView, PureIntrinsic, SysView,
};
use crate::keys::copy_keys;
use vstd::prelude::*;
use vstd::string::*;

verus! {

/// The name and the data type of one port of a module that is to be created.
pub struct PortInfo {
    pub name: String,
    pub dtype: DataType,
}

impl View for PortInfo {
    type V = PortView;

    open spec fn view(&self) -> PortView {
        PortView { name: self.name@, dtype: self.dtype }
    }
}

impl PortInfo {
    pub fn new(name: &str, dtype: DataType) -> (r: Self)
        ensures
            r@ == (PortView { name: name@, dtype }),
    {
        PortInfo { name: String::from_str(name), dtype }
    }
}

/// The views of a list of ports, in order.
pub open spec fn port_views(ports: Seq<PortInfo>) -> Seq<PortView> {
    Seq::new(ports.len(), |i: int| ports[i]@)
}

struct ModuleNode {
    name: String,
    ports: Vec<usize>,
    body: Vec<usize>,
}

struct FifoNode {
    name: String,
    dtype: DataType,
    module: usize,
}

struct ImmNode {
    dtype: DataType,
    value: u64,
}

struct ExprNode {
    opcode: Opcode,
    operands: Vec<usize>,
    dtype: DataType,
    parent: usize,
}

enum Node {
    Module(ModuleNode),
    Fifo(FifoNode),
    IntImm(ImmNode),
    Expr(ExprNode),
}

impl View for Node {
    type V = NodeView;

    closed spec fn view(&self) -> NodeView {
        match self {
            Node::Module(m) => NodeView::Module(
                ModuleView { name: m.name@, ports: m.ports@, body: m.body@ },
            ),
            Node::Fifo(f) => NodeView::Fifo(
                FifoView { name: f.name@, dtype: f.dtype, module: f.module },
            ),
            Node::IntImm(i) => NodeView::IntImm(ImmView { dtype: i.dtype, value: i.value }),
            Node::Expr(e) => NodeView::Expr(
                ExprView {
                    opcode: e.opcode,
                    operands: e.operands@,
                    dtype: e.dtype,
                    parent: e.parent,
                },
            ),
        }
    }
}

/// Owns the arena of a system. A node's key is its index in the arena and
/// never changes.
pub struct SysBuilder {
    nodes: Vec<Node>,
    current: usize,
}

impl View for SysBuilder {
    type V = SysView;

    closed spec fn view(&self) -> SysView {
        SysView { nodes: Seq::new(self.nodes@.len(), |i: int| self.nodes@[i]@), current: self.current }
    }
}

fn keys1(a: usize) -> (r: Vec<usize>)
    ensures
        r@ == seq![a],
{
    let mut r: Vec<usize> = Vec::new();
    r.push(a);
    assert(r@ =~= seq![a]);
    r
}

fn keys2(a: usize, b: usize) -> (r: Vec<usize>)
    ensures
        r@ == seq![a, b],
{
    let mut r: Vec<usize> = Vec::new();
    r.push(a);
    r.push(b);
    assert(r@ =~= seq![a, b]);
    r
}

fn keys3(a: usize, b: usize, c: usize) -> (r: Vec<usize>)
    ensures
        r@ == seq![a, b, c],
{
    let mut r: Vec<usize> = Vec::new();
    r.push(a);
    r.push(b);
    r.push(c);
    assert(r@ =~= seq![a, b, c]);
    r
}

impl SysBuilder {
    /// An empty system.
    pub fn new() -> (r: Self)
        ensures
            r@.nodes.len() == 0,
            r@.current == 0,
            r@.wf(),
    {
        SysBuilder { nodes: Vec::new(), current: 0 }
    }

    /// The number of nodes, which is the key of the next new node.
    pub fn len(&self) -> (r: usize)
        ensures
            r == self@.nodes.len(),
    {
        self.nodes.len()
    }

    /// The kind of the node with key `k`, if there is such a node.
    pub fn kind(&self, k: usize) -> (r: Option<NodeKind>)
        ensures
            r == if self@.has(k) {
                Some(self@.kind(k))
            } else {
                None
            },
    {
        if k < self.nodes.len() {
            Some(
                match &self.nodes[k] {
                    Node::Module(_) => NodeKind::Module,
                    Node::Fifo(_) => NodeKind::FIFO,
                    Node::IntImm(_) => NodeKind::IntImm,
                    Node::Expr(_) => NodeKind::Expr,
                },
            )
        } else {
            None
        }
    }

    pub fn is_module(&self, k: usize) -> (r: bool)
        ensures
            r == self@.is_module(k),
    {
        k < self.nodes.len() && match &self.nodes[k] {
            Node::Module(_) => true,
            _ => false,
        }
    }

    pub fn is_expr(&self, k: usize) -> (r: bool)
        ensures
            r == self@.is_expr(k),
    {
        k < self.nodes.len() && match &self.nodes[k] {
            Node::Expr(_) => true,
            _ => false,
        }
    }

    pub fn is_fifo(&self, k: usize) -> (r: bool)
        ensures
            r == self@.is_fifo(k),
    {
        k < self.nodes.len() && match &self.nodes[k] {
            Node::Fifo(_) => true,
            _ => false,
        }
    }

    /// The opcode of the expression `k`.
    pub fn opcode(&self, k: usize) -> (r: Opcode)
        requires
            self@.is_expr(k),
        ensures
            r == self@.opcode(k),
    {
        match &self.nodes[k] {
            Node::Expr(e) => e.opcode,
            _ => Opcode::Log,
        }
    }

    /// The number of operands of the expression `k`.
    pub fn operand_count(&self, k: usize) -> (r: usize)
        requires
            self@.is_expr(k),
        ensures
            r == self@.operands(k).len(),
    {
        match &self.nodes[k] {
            Node::Expr(e) => e.operands.len(),
            _ => 0,
        }
    }

    /// The key of operand `i` of the expression `k`.
    pub fn operand(&self, k: usize, i: usize) -> (r: usize)
        requires
            self@.is_expr(k),
            i < self@.operands(k).len(),
        ensures
            r == self@.operands(k)[i as int],
    {
        match &self.nodes[k] {
            Node::Expr(e) => e.operands[i],
            _ => 0,
        }
    }

    /// The operand keys of the expression `k`, in order.
    pub fn operands(&self, k: usize) -> (r: Vec<usize>)
        requires
            self@.is_expr(k),
        ensures
            r@ == self@.operands(k),
    {
        match &self.nodes[k] {
            Node::Expr(e) => copy_keys(&e.operands),
            _ => Vec::new(),
        }
    }

    /// The key of the module whose body the expression `k` was appended to.
    pub fn parent(&self, k: usize) -> (r: usize)
        requires
            self@.is_expr(k),
        ensures
            r == self@.expr(k).parent,
    {
        match &self.nodes[k] {
            Node::Expr(e) => e.parent,
            _ => 0,
        }
    }

    /// The data type of the value with key `k`; `Void` for a module.
    pub fn dtype(&self, k: usize) -> (r: DataType)
        requires
            self@.has(k),
        ensures
            r == self@.dtype_of(k),
    {
        match &self.nodes[k] {
            Node::Module(_) => DataType::Void,
            Node::Fifo(f) => f.dtype,
            Node::IntImm(i) => i.dtype,
            Node::Expr(e) => e.dtype,
        }
    }

    /// The value of the integer constant `k`.
    pub fn imm_value(&self, k: usize) -> (r: u64)
        requires
            self@.is_imm(k),
        ensures
            r == self@.imm(k).value,
    {
        match &self.nodes[k] {
            Node::IntImm(i) => i.value,
            _ => 0,
        }
    }

    /// The name of the module `m`.
    pub fn module_name(&self, m: usize) -> (r: String)
        requires
            self@.is_module(m),
        ensures
            r@ == self@.module(m).name,
    {
        match &self.nodes[m] {
            Node::Module(md) => md.name.clone(),
            _ => String::new(),
        }
    }

    /// The keys of the body of the module `m`, in program order.
    pub fn body(&self, m: usize) -> (r: Vec<usize>)
        requires
            self@.is_module(m),
        ensures
            r@ == self@.body(m),
    {
        match &self.nodes[m] {
            Node::Module(md) => copy_keys(&md.body),
            _ => Vec::new(),
        }
    }

    /// The number of expressions in the body of the module `m`.
    pub fn body_len(&self, m: usize) -> (r: usize)
        requires
            self@.is_module(m),
        ensures
            r == self@.body(m).len(),
    {
        match &self.nodes[m] {
            Node::Module(md) => md.body.len(),
            _ => 0,
        }
    }

    /// The key of the expression at place `i` of the body of the module `m`.
    pub fn body_at(&self, m: usize, i: usize) -> (r: usize)
        requires
            self@.is_module(m),
            i < self@.body(m).len(),
        ensures
            r == self@.body(m)[i as int],
    {
        match &self.nodes[m] {
            Node::Module(md) => md.body[i],
            _ => 0,
        }
    }

    /// The keys of the FIFO ports of the module `m`, in order.
    pub fn ports(&self, m: usize) -> (r: Vec<usize>)
        requires
            self@.is_module(m),
        ensures
            r@ == self@.ports(m),
    {
        match &self.nodes[m] {
            Node::Module(md) => copy_keys(&md.ports),
            _ => Vec::new(),
        }
    }

    /// The name of the FIFO `f`.
    pub fn fifo_name(&self, f: usize) -> (r: String)
        requires
            self@.is_fifo(f),
        ensures
            r@ == self@.fifo(f).name,
    {
        match &self.nodes[f] {
            Node::Fifo(fd) => fd.name.clone(),
            _ => String::new(),
        }
    }

    /// The key of the module that owns the FIFO `f`.
    pub fn fifo_module(&self, f: usize) -> (r: usize)
        requires
            self@.is_fifo(f),
        ensures
            r == self@.fifo(f).module,
    {
        match &self.nodes[f] {
            Node::Fifo(fd) => fd.module,
            _ => 0,
        }
    }

    /// The key of the module that new expressions are appended to.
    pub fn current_module(&self) -> (r: usize)
        ensures
            r == self@.current,
    {
        self.current
    }

    /// Moves the cursor to the module `m`.
    pub fn set_current_module(&mut self, m: usize)
        ensures
            final(self)@ == old(self)@.with_current(m),
            final(self)@.wf() == old(self)@.wf(),
            old(self)@.grows_to(final(self)@),
    {
        self.current = m;
        proof {
            old(self)@.lemma_with_current_grows(m);
            assert(forall|k: usize| self@.node_ok(k) == old(self)@.node_ok(k));
        }
    }

    /// The first module with the given name.
    pub fn get_module(&self, name: &str) -> (r: Option<usize>)
        ensures
            r == self@.find_module(name@),
    {
        let wanted = String::from_str(name);
        let mut k: usize = 0;
        while k < self.nodes.len()
            invariant
                k <= self.nodes@.len(),
                wanted@ == name@,
                self@.find_module(name@) == self@.find_module_from(name@, k as nat),
            decreases self.nodes@.len() - k,
        {
            let hit = match &self.nodes[k] {
                Node::Module(md) => md.name == wanted,
                _ => false,
            };
            if hit {
                return Some(k);
            }
            k += 1;
        }
        None
    }

    /// The first port of the module `m` with the given name.
    pub fn get_fifo(&self, m: usize, name: &str) -> (r: Option<usize>)
        requires
            self@.wf(),
            self@.is_module(m),
        ensures
            r == self@.find_port(m, name@),
    {
        let wanted = String::from_str(name);
        let n = self.port_count(m);
        let mut i: usize = 0;
        while i < n
            invariant
                i <= n,
                n == self@.ports(m).len(),
                self@.wf(),
                self@.is_module(m),
                wanted@ == name@,
                self@.find_port(m, name@) == self@.find_port_from(m, name@, i as nat),
            decreases n - i,
        {
            let f = self.port_at(m, i);
            proof {
                assert(self@.node_ok(m));
                assert(self@.is_fifo(self@.ports(m)[i as int]));
            }
            let fname = self.fifo_name(f);
            if fname == wanted {
                return Some(f);
            }
            i += 1;
        }
        None
    }

    /// The number of ports of the module `m`.
    pub fn port_count(&self, m: usize) -> (r: usize)
        requires
            self@.is_module(m),
        ensures
            r == self@.ports(m).len(),
    {
        match &self.nodes[m] {
            Node::Module(md) => md.ports.len(),
            _ => 0,
        }
    }

    /// The key of port `i` of the module `m`.
    pub fn port_at(&self, m: usize, i: usize) -> (r: usize)
        requires
            self@.is_module(m),
            i < self@.ports(m).len(),
        ensures
            r == self@.ports(m)[i as int],
    {
        match &self.nodes[m] {
            Node::Module(md) => md.ports[i],
            _ => 0,
        }
    }
}


impl SysBuilder {
    /// Adds an integer constant and returns its key.
    pub fn create_int_imm(&mut self, dtype: DataType, value: u64) -> (r: usize)
        requires
            old(self)@.wf(),
        ensures
            final(self)@ == old(self)@.add_imm(dtype, value),
            r == old(self)@.next_key(),
            final(self)@.wf(),
            old(self)@.grows_to(final(self)@),
    {
        let key: usize = self.nodes.len();
        self.nodes.push(Node::IntImm(ImmNode { dtype, value }));
        let n: usize = self.nodes.len();
        proof {
            assert(self@.nodes =~= old(self)@.add_imm(dtype, value).nodes);
            old(self)@.lemma_add_imm(dtype, value);
            old(self)@.lemma_add_imm_grows(dtype, value);
        }
        key
    }

    /// Appends a new expression to the body of the current module and returns
    /// its key.
    pub fn create_expr(&mut self, opcode: Opcode, operands: Vec<usize>, dtype: DataType) -> (r:
        usize)
        requires
            old(self)@.wf(),
            old(self)@.is_module(old(self)@.current),
            arity_ok(opcode, operands@.len()),
            old(self)@.has_all(operands@),
        ensures
            final(self)@ == old(self)@.emit(opcode, operands@, dtype),
            r == old(self)@.next_key(),
            final(self)@.wf(),
            final(self)@.is_module(final(self)@.current),
            final(self)@.current == old(self)@.current,
            old(self)@.grows_to(final(self)@),
    {
        let key: usize = self.nodes.len();
        let m: usize = self.current;
        let ghost ops = operands@;
        match &mut self.nodes[m] {
            Node::Module(md) => {
                md.body.push(key);
            },
            _ => {},
        }
        self.nodes.push(Node::Expr(ExprNode { opcode, operands, dtype, parent: m }));
        let n: usize = self.nodes.len();
        proof {
            assert(self@.nodes =~= old(self)@.emit(opcode, ops, dtype).nodes);
            old(self)@.lemma_emit(opcode, ops, dtype);
            old(self)@.lemma_emit_grows(opcode, ops, dtype);
        }
        key
    }

    /// Adds a module with the given ports and returns its key. The ports get
    /// the keys that follow the module's, in order. The cursor stays.
    pub fn create_module(&mut self, name: &str, ports: Vec<PortInfo>) -> (r: usize)
        requires
            old(self)@.wf(),
        ensures
            final(self)@ == old(self)@.add_module(name@, port_views(ports@)),
            r == old(self)@.next_key(),
            final(self)@.wf(),
            final(self)@.is_module(r),
            old(self)@.grows_to(final(self)@),
    {
        let m: usize = self.nodes.len();
        let ghost want = old(self)@.add_module(name@, port_views(ports@));
        self.nodes.push(
            Node::Module(
                ModuleNode { name: String::from_str(name), ports: Vec::new(), body: Vec::new() },
            ),
        );
        let mut i: usize = 0;
        while i < ports.len()
            invariant
                i <= ports.len(),
                m == old(self)@.nodes.len(),
                self.current == old(self).current,
                self.nodes@.len() == m + 1 + i,
                forall|k: int| 0 <= k < m ==> self.nodes@[k] == old(self).nodes@[k],
                self.nodes@[m as int]@ is Module,
                self.nodes@[m as int]@->Module_0.name == name@,
                self.nodes@[m as int]@->Module_0.body == Seq::<usize>::empty(),
                self.nodes@[m as int]@->Module_0.ports == Seq::new(
                    i as nat,
                    |j: int| (m + 1 + j) as usize,
                ),
                forall|j: int|
                    0 <= j < i ==> (#[trigger] self.nodes@[m + 1 + j])@ == NodeView::Fifo(
                        FifoView { name: ports@[j].name@, dtype: ports@[j].dtype, module: m },
                    ),
            decreases ports.len() - i,
        {
            let key: usize = self.nodes.len();
            let ghost before = self.nodes@[m as int]@->Module_0.ports;
            match &mut self.nodes[m] {
                Node::Module(md) => {
                    md.ports.push(key);
                },
                _ => {},
            }
            assert(self.nodes@[m as int]@->Module_0.ports =~= Seq::new(
                (i + 1) as nat,
                |j: int| (m + 1 + j) as usize,
            )) by {
                assert(self.nodes@[m as int]@->Module_0.ports == before.push(key));
            }
            let fname = ports[i].name.clone();
            let fdtype = ports[i].dtype;
            self.nodes.push(Node::Fifo(FifoNode { name: fname, dtype: fdtype, module: m }));
            i += 1;
        }
        let n: usize = self.nodes.len();
        proof {
            assert(self@.nodes.len() == want.nodes.len());
            assert forall|k: int| 0 <= k < self@.nodes.len() implies self@.nodes[k] == want.nodes[k] by {
                if k < m {
                } else if k == m {
                    assert(self@.nodes[k]->Module_0.ports =~= want.nodes[k]->Module_0.ports);
                } else {
                    let j = k - m - 1;
                    assert(self.nodes@[m + 1 + j]@ == want.nodes[k]);
                }
            }
            assert(self@.nodes =~= want.nodes);
            old(self)@.lemma_add_module(name@, port_views(ports@));
            old(self)@.lemma_add_module_grows(name@, port_views(ports@));
        }
        m
    }

    /// Takes the expression `k` out of its parent's body. The node keeps its
    /// key. Where `k` is no expression, or is in no body, nothing changes.
    pub fn erase_from_parent(&mut self, k: usize)
        requires
            old(self)@.wf(),
        ensures
            final(self)@ == old(self)@.erase(k),
            final(self)@.wf(),
            old(self)@.grows_to(final(self)@),
    {
        proof {
            old(self)@.lemma_erase(k);
            old(self)@.lemma_erase_grows(k);
        }
        if !self.is_expr(k) {
            return ;
        }
        let m: usize = self.parent(k);
        if !self.is_module(m) {
            return ;
        }
        let n: usize = self.body_len(m);
        let mut i: usize = 0;
        while i < n && self.body_at(m, i) != k
            invariant
                i <= n,
                n == self@.body(m).len(),
                self@.is_module(m),
                *self == *old(self),
                forall|j: int| 0 <= j < i ==> self@.body(m)[j] != k,
            decreases n - i,
        {
            i += 1;
        }
        let ghost b = self@.body(m);
        proof {
            lemma_remove_first_at(b, k, i as int);
        }
        if i < n {
            match &mut self.nodes[m] {
                Node::Module(md) => {
                    md.body.remove(i);
                },
                _ => {},
            }
            proof {
                assert(self@.nodes =~= old(self)@.erase(k).nodes);
            }
        } else {
            proof {
                assert(self@.nodes =~= old(self)@.erase(k).nodes);
            }
        }
    }

    fn attach(&mut self, bind: usize, arg: usize)
        requires
            old(self)@.wf(),
            old(self)@.is_expr(bind),
            old(self)@.opcode(bind) == Opcode::Bind,
            old(self)@.has(arg),
        ensures
            final(self)@ == old(self)@.attach(bind, arg),
            final(self)@.wf(),
            old(self)@.grows_to(final(self)@),
    {
        match &mut self.nodes[bind] {
            Node::Expr(e) => {
                e.operands.push(arg);
            },
            _ => {},
        }
        proof {
            assert(self@.nodes =~= old(self)@.attach(bind, arg).nodes);
            old(self)@.lemma_attach(bind, arg);
            old(self)@.lemma_attach_grows(bind, arg);
        }
    }
}

impl SysBuilder {
    /// Appends a probe that tells whether the FIFO `fifo` holds a value.
    pub fn create_fifo_valid(&mut self, fifo: usize) -> (r: usize)
        requires
            old(self)@.wf(),
            old(self)@.is_module(old(self)@.current),
            old(self)@.has(fifo),
        ensures
            final(self)@ == old(self)@.emit_valid(fifo),
            r == old(self)@.next_key(),
            final(self)@.wf(),
            final(self)@.is_module(final(self)@.current),
            final(self)@.current == old(self)@.current,
            old(self)@.grows_to(final(self)@),
    {
        self.create_expr(
            Opcode::PureIntrinsic { intrinsic: PureIntrinsic::FIFOValid },
            keys1(fifo),
            DataType::UInt(1),
        )
    }

    /// Appends a pop of the FIFO `fifo`, typed as the FIFO.
    pub fn create_fifo_pop(&mut self, fifo: usize) -> (r: usize)
        requires
            old(self)@.wf(),
            old(self)@.is_module(old(self)@.current),
            old(self)@.has(fifo),
        ensures
            final(self)@ == old(self)@.emit_pop(fifo),
            r == old(self)@.next_key(),
            final(self)@.wf(),
            final(self)@.is_module(final(self)@.current),
            final(self)@.current == old(self)@.current,
            old(self)@.grows_to(final(self)@),
    {
        let dtype = self.dtype(fifo);
        self.create_expr(Opcode::FIFOPop, keys1(fifo), dtype)
    }

    /// Appends a wait until `cond` holds.
    pub fn create_wait_until(&mut self, cond: usize) -> (r: usize)
        requires
            old(self)@.wf(),
            old(self)@.is_module(old(self)@.current),
            old(self)@.has(cond),
        ensures
            final(self)@ == old(self)@.emit_wait(cond),
            r == old(self)@.next_key(),
            final(self)@.wf(),
            final(self)@.is_module(final(self)@.current),
            final(self)@.current == old(self)@.current,
            old(self)@.grows_to(final(self)@),
    {
        self.create_expr(
            Opcode::BlockIntrinsic { intrinsic: BlockIntrinsic::WaitUntil },
            keys1(cond),
            DataType::Void,
        )
    }

    /// Appends the two-operand operation `binop` on `a` and `b`, typed as `a`.
    pub fn create_binary(&mut self, binop: Binary, a: usize, b: usize) -> (r: usize)
        requires
            old(self)@.wf(),
            old(self)@.is_module(old(self)@.current),
            old(self)@.has(a),
            old(self)@.has(b),
        ensures
            final(self)@ == old(self)@.emit_binary(binop, a, b),
            r == old(self)@.next_key(),
            final(self)@.wf(),
            final(self)@.is_module(final(self)@.current),
            final(self)@.current == old(self)@.current,
            old(self)@.grows_to(final(self)@),
    {
        let dtype = self.dtype(a);
        self.create_expr(Opcode::Binary { binop }, keys2(a, b), dtype)
    }

    /// Appends the bitwise conjunction of `a` and `b`.
    pub fn create_bitwise_and(&mut self, a: usize, b: usize) -> (r: usize)
        requires
            old(self)@.wf(),
            old(self)@.is_module(old(self)@.current),
            old(self)@.has(a),
            old(self)@.has(b),
        ensures
            final(self)@ == old(self)@.emit_binary(Binary::BitwiseAnd, a, b),
            r == old(self)@.next_key(),
            final(self)@.wf(),
            final(self)@.is_module(final(self)@.current),
            final(self)@.current == old(self)@.current,
            old(self)@.grows_to(final(self)@),
    {
        self.create_binary(Binary::BitwiseAnd, a, b)
    }

    /// Appends the sum of `a` and `b`.
    pub fn create_add(&mut self, a: usize, b: usize) -> (r: usize)
        requires
            old(self)@.wf(),
            old(self)@.is_module(old(self)@.current),
            old(self)@.has(a),
            old(self)@.has(b),
        ensures
            final(self)@ == old(self)@.emit_binary(Binary::Add, a, b),
            r == old(self)@.next_key(),
            final(self)@.wf(),
            final(self)@.is_module(final(self)@.current),
            final(self)@.current == old(self)@.current,
            old(self)@.grows_to(final(self)@),
    {
        self.create_binary(Binary::Add, a, b)
    }

    /// Appends the difference of `a` and `b`.
    pub fn create_sub(&mut self, a: usize, b: usize) -> (r: usize)
        requires
            old(self)@.wf(),
            old(self)@.is_module(old(self)@.current),
            old(self)@.has(a),
            old(self)@.has(b),
        ensures
            final(self)@ == old(self)@.emit_binary(Binary::Sub, a, b),
            r == old(self)@.next_key(),
            final(self)@.wf(),
            final(self)@.is_module(final(self)@.current),
            final(self)@.current == old(self)@.current,
            old(self)@.grows_to(final(self)@),
    {
        self.create_binary(Binary::Sub, a, b)
    }

    /// Appends the product of `a` and `b`.
    pub fn create_mul(&mut self, a: usize, b: usize) -> (r: usize)
        requires
            old(self)@.wf(),
            old(self)@.is_module(old(self)@.current),
            old(self)@.has(a),
            old(self)@.has(b),
        ensures
            final(self)@ == old(self)@.emit_binary(Binary::Mul, a, b),
            r == old(self)@.next_key(),
            final(self)@.wf(),
            final(self)@.is_module(final(self)@.current),
            final(self)@.current == old(self)@.current,
            old(self)@.grows_to(final(self)@),
    {
        self.create_binary(Binary::Mul, a, b)
    }

    /// Appends a reinterpreting cast of `value` to `dtype`.
    pub fn create_bitcast(&mut self, value: usize, dtype: DataType) -> (r: usize)
        requires
            old(self)@.wf(),
            old(self)@.is_module(old(self)@.current),
            old(self)@.has(value),
        ensures
            final(self)@ == old(self)@.emit_bitcast(value, dtype),
            r == old(self)@.next_key(),
            final(self)@.wf(),
            final(self)@.is_module(final(self)@.current),
            final(self)@.current == old(self)@.current,
            old(self)@.grows_to(final(self)@),
    {
        self.create_expr(Opcode::Cast { cast: Cast::BitCast }, keys1(value), dtype)
    }

    /// Appends a slice of `base` between the bit positions `start` and `end`.
    pub fn create_slice(&mut self, base: usize, start: usize, end: usize) -> (r: usize)
        requires
            old(self)@.wf(),
            old(self)@.is_module(old(self)@.current),
            old(self)@.has(base),
            old(self)@.has(start),
            old(self)@.has(end),
        ensures
            final(self)@ == old(self)@.emit_slice(base, start, end),
            r == old(self)@.next_key(),
            final(self)@.wf(),
            final(self)@.is_module(final(self)@.current),
            final(self)@.current == old(self)@.current,
            old(self)@.grows_to(final(self)@),
    {
        let dtype = self.dtype(base);
        self.create_expr(Opcode::Slice, keys3(base, start, end), dtype)
    }

    /// Appends a bind to `callee` that has no argument yet.
    pub fn get_init_bind(&mut self, callee: usize) -> (r: usize)
        requires
            old(self)@.wf(),
            old(self)@.is_module(old(self)@.current),
            old(self)@.has(callee),
        ensures
            final(self)@ == old(self)@.emit_bind(callee),
            r == old(self)@.next_key(),
            final(self)@.wf(),
            final(self)@.is_module(final(self)@.current),
            final(self)@.current == old(self)@.current,
            old(self)@.grows_to(final(self)@),
    {
        self.create_expr(Opcode::Bind, keys1(callee), DataType::Void)
    }

    /// Appends the call that fires `bind`.
    pub fn create_async_call(&mut self, bind: usize) -> (r: usize)
        requires
            old(self)@.wf(),
            old(self)@.is_module(old(self)@.current),
            old(self)@.has(bind),
        ensures
            final(self)@ == old(self)@.emit_call(bind),
            r == old(self)@.next_key(),
            final(self)@.wf(),
            final(self)@.is_module(final(self)@.current),
            final(self)@.current == old(self)@.current,
            old(self)@.grows_to(final(self)@),
    {
        self.create_expr(Opcode::AsyncCall, keys1(bind), DataType::Void)
    }

    /// Appends a push of `value` to `fifo` and makes it one more argument of
    /// `bind`. Returns the key of the push.
    pub fn bind_port(&mut self, bind: usize, fifo: usize, value: usize) -> (r: usize)
        requires
            old(self)@.wf(),
            old(self)@.is_module(old(self)@.current),
            old(self)@.is_bind(bind),
            old(self)@.has(fifo),
            old(self)@.has(value),
        ensures
            final(self)@ == old(self)@.bind_to(bind, fifo, value),
            r == old(self)@.next_key(),
            final(self)@.wf(),
            final(self)@.is_module(final(self)@.current),
            final(self)@.current == old(self)@.current,
            old(self)@.grows_to(final(self)@),
    {
        let push = self.create_expr(Opcode::FIFOPush, keys2(fifo, value), DataType::Void);
        proof {
            assert(old(self)@.keeps(self@, bind));
        }
        self.attach(bind, push);
        proof {
            old(self)@.lemma_bind_to_grows(bind, fifo, value);
        }
        push
    }

    /// Binds `value` to the port named `name` of the module that `bind`
    /// calls. Returns the key of the push, or `None`, with nothing changed,
    /// where `bind` calls no module or the module has no port of that name.
    pub fn bind_arg(&mut self, bind: usize, name: &str, value: usize) -> (r: Option<usize>)
        requires
            old(self)@.wf(),
            old(self)@.is_module(old(self)@.current),
            old(self)@.is_bind(bind),
            old(self)@.has(value),
        ensures
            match old(self)@.bind_target(bind, name@) {
                Some(fifo) => r == Some(old(self)@.next_key()) && final(self)@ == old(self)@.bind_to(
                    bind,
                    fifo,
                    value,
                ),
                None => r.is_none() && final(self)@ == old(self)@,
            },
            final(self)@.wf(),
            final(self)@.is_module(final(self)@.current),
            final(self)@.current == old(self)@.current,
            old(self)@.grows_to(final(self)@),
    {
        proof {
            assert(self@.node_ok(bind));
        }
        proof {
            self@.lemma_grows_refl();
        }
        let callee = self.operand(bind, 0);
        if !self.is_module(callee) {
            return None;
        }
        match self.get_fifo(callee, name) {
            Some(fifo) => {
                proof {
                    lemma_find_port_is_port(self@, callee, name@, 0);
                }
                Some(self.bind_port(bind, fifo, value))
            },
            None => None,
        }
    }
}

/// A port found by name is one of the module's ports.
pub proof fn lemma_find_port_is_port(sv: SysView, callee: usize, name: Seq<char>, i: nat)
    requires
        sv.wf(),
        sv.is_module(callee),
    ensures
        match sv.find_port_from(callee, name, i) {
            Some(f) => sv.is_fifo(f) && sv.fifo(f).name == name && sv.fifo(f).module == callee
                && sv.ports(callee).contains(f),
            None => true,
        },
    decreases sv.ports(callee).len() - i,
{
    let ports = sv.ports(callee);
    assert(sv.node_ok(callee));
    if i >= ports.len() {
    } else if sv.fifo(ports[i as int]).name == name {
        assert(sv.is_fifo(ports[i as int]));
    } else {
        lemma_find_port_is_port(sv, callee, name, i + 1);
    }
}

/// Where `k` first occurs at place `i` of `s`, removing the first occurrence
/// removes place `i`; where it occurs nowhere, nothing is removed.
pub proof fn lemma_remove_first_at(s: Seq<usize>, k: usize, i: int)
    requires
        0 <= i <= s.len(),
        forall|j: int| 0 <= j < i ==> s[j] != k,
        i < s.len() ==> s[i] == k,
    ensures
        crate::ir::remove_first(s, k) == if i < s.len() {
            s.remove(i)
        } else {
            s
        },
    decreases s.len(),
{
    if s.len() == 0 {
    } else if i == 0 {
        assert(s.remove(0) =~= s.drop_first());
    } else {
        let t = s.drop_first();
        lemma_remove_first_at(t, k, i - 1);
        if i < s.len() {
            assert(seq![s[0]] + t.remove(i - 1) =~= s.remove(i));
        } else {
            assert(seq![s[0]] + t =~= s);
        }
    }
}

} // verus!
