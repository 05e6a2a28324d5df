//! Stage descriptors and the container that holds the stages of one module.

use crate::keys::{copy_keys, first_at, has_key, lemma_first_at, lemma_first_at_is};
use vstd::prelude::*;
use vstd::string::*;

verus! {

/// One stage: the values read at its entry, the values that leave it for the
/// next stage, and the expressions it computes.
pub struct StageView {
    pub ports: Seq<usize>,
    pub barriers: Seq<usize>,
    pub body: Seq<usize>,
}

/// A stage that has only its entry ports yet.
pub open spec fn fresh_stage(ports: Seq<usize>) -> StageView {
    StageView { ports, barriers: Seq::empty(), body: Seq::empty() }
}

/// Stages found by key. Entry `i` has the key `keys[i]`; a key is looked up
/// at its first place.
pub struct TableView {
    pub keys: Seq<usize>,
    pub items: Seq<StageView>,
}

impl TableView {
    /// Every key has its stage.
    pub open spec fn aligned(self) -> bool {
        self.keys.len() == self.items.len()
    }

    /// Every key has its stage, and no key occurs twice.
    pub open spec fn wf(self) -> bool {
        self.aligned() && self.keys.no_duplicates()
    }

    /// Putting a stage under a key keeps the table consistent.
    pub proof fn lemma_put_wf(self, k: usize, s: StageView)
        requires
            self.wf(),
        ensures
            self.put(k, s).wf(),
            !self.has(k) ==> self.put(k, s).find(k) == self.keys.len(),
    {
        lemma_first_at(self.keys, k);
        if !self.has(k) {
            let keys = self.keys.push(k);
            assert forall|i: int, j: int| 0 <= i < keys.len() && 0 <= j < keys.len() && i != j implies keys[i] != keys[j] by {
                if i < self.keys.len() && j < self.keys.len() {
                } else if i < self.keys.len() {
                    assert(self.keys.contains(self.keys[i]));
                } else {
                    assert(self.keys.contains(self.keys[j]));
                }
            }
            lemma_first_at_is(keys, k, self.keys.len() as int);
        }
    }

    /// In a consistent table a key is found at the place it stands at.
    pub proof fn lemma_find_place(self, i: int)
        requires
            self.wf(),
            0 <= i < self.keys.len(),
        ensures
            self.has(self.keys[i]),
            self.find(self.keys[i]) == i,
    {
        lemma_first_at_is(self.keys, self.keys[i], i);
    }

    /// The place of the stage with key `k`; `keys.len()` where there is none.
    pub open spec fn find(self, k: usize) -> int {
        first_at(self.keys, k)
    }

    pub open spec fn has(self, k: usize) -> bool {
        self.keys.contains(k)
    }

    /// The stage with key `k`.
    pub open spec fn get(self, k: usize) -> StageView {
        self.items[self.find(k)]
    }

    /// The table with the stage at place `i` replaced.
    pub open spec fn set_at(self, i: int, s: StageView) -> TableView {
        TableView { keys: self.keys, items: self.items.update(i, s) }
    }

    /// The table in which key `k` stands for `s`, whether or not it stood for a stage before.
    pub open spec fn put(self, k: usize, s: StageView) -> TableView {
        if self.has(k) {
            self.set_at(self.find(k), s)
        } else {
            TableView { keys: self.keys.push(k), items: self.items.push(s) }
        }
    }

    /// The table after `barriers` became what leaves the stage at place `i`.
    pub open spec fn close_at(self, i: int, barriers: Seq<usize>) -> TableView {
        let s = self.items[i];
        self.set_at(i, StageView { ports: s.ports, barriers, body: s.body })
    }

    /// The table after `v` joined the body of the stage at place `i`.
    pub open spec fn join_at(self, i: int, v: usize) -> TableView {
        let s = self.items[i];
        if s.body.contains(v) {
            self
        } else {
            self.set_at(i, StageView { ports: s.ports, barriers: s.barriers, body: s.body.push(v) })
        }
    }
}

/// A stage of a split module.
#[derive(Debug, Clone)]
pub struct SubModule {
    buffered_barriers: Vec<usize>,
    buffered_ports: Vec<usize>,
    buffered_expr: Vec<usize>,
}

impl View for SubModule {
    type V = StageView;

    closed spec fn view(&self) -> StageView {
        StageView {
            ports: self.buffered_ports@,
            barriers: self.buffered_barriers@,
            body: self.buffered_expr@,
        }
    }
}

impl SubModule {
    /// A stage with the given entry ports, no body and nothing leaving it.
    pub fn new(ports: Vec<usize>) -> (r: Self)
        ensures
            r@ == fresh_stage(ports@),
    {
        SubModule {
            buffered_barriers: Vec::new(),
            buffered_ports: ports,
            buffered_expr: Vec::new(),
        }
    }

    /// The keys of the values that leave this stage for the next one.
    pub fn buffered_barriers(&self) -> (r: &Vec<usize>)
        ensures
            r@ == self@.barriers,
    {
        &self.buffered_barriers
    }

    /// The keys of the values read at this stage's entry.
    pub fn buffered_ports(&self) -> (r: &Vec<usize>)
        ensures
            r@ == self@.ports,
    {
        &self.buffered_ports
    }

    /// The keys of the expressions of this stage, in the order they joined it.
    pub fn buffered_expr(&self) -> (r: &Vec<usize>)
        ensures
            r@ == self@.body,
    {
        &self.buffered_expr
    }

    /// A copy of this stage.
    pub fn copy(&self) -> (r: Self)
        ensures
            r@ == self@,
    {
        SubModule {
            buffered_barriers: copy_keys(&self.buffered_barriers),
            buffered_ports: copy_keys(&self.buffered_ports),
            buffered_expr: copy_keys(&self.buffered_expr),
        }
    }
}

#[derive(Debug, Clone)]
struct StageEntry {
    key: usize,
    stage: SubModule,
}

/// The stages of one module, found by key.
#[derive(Debug, Clone)]
pub struct StageTable {
    entries: Vec<StageEntry>,
}

impl View for StageTable {
    type V = TableView;

    closed spec fn view(&self) -> TableView {
        TableView {
            keys: Seq::new(self.entries@.len(), |i: int| self.entries@[i].key),
            items: Seq::new(self.entries@.len(), |i: int| self.entries@[i].stage@),
        }
    }
}

impl StageTable {
    /// A table without stages.
    pub fn new() -> (r: Self)
        ensures
            r@.keys.len() == 0,
            r@.items.len() == 0,
            r@.wf(),
    {
        let r = StageTable { entries: Vec::new() };
        assert(r@.keys =~= Seq::empty());
        r
    }

    /// The number of stages.
    pub fn len(&self) -> (r: usize)
        ensures
            r == self@.keys.len(),
            self@.aligned(),
    {
        self.entries.len()
    }

    /// The place of the stage with key `k`, or `len()` where there is none.
    pub fn find(&self, k: usize) -> (r: usize)
        ensures
            r == self@.find(k),
            r <= self@.keys.len(),
            r < self@.keys.len() <==> self@.has(k),
            self@.aligned(),
    {
        let mut i: usize = 0;
        while i < self.entries.len() && self.entries[i].key != k
            invariant
                i <= self.entries@.len(),
                forall|j: int| 0 <= j < i ==> self@.keys[j] != k,
            decreases self.entries@.len() - i,
        {
            i += 1;
        }
        proof {
            lemma_first_at_is(self@.keys, k, i as int);
            lemma_first_at(self@.keys, k);
        }
        i
    }

    /// The stage at place `i`.
    pub fn at(&self, i: usize) -> (r: &SubModule)
        requires
            i < self@.items.len(),
        ensures
            r@ == self@.items[i as int],
    {
        &self.entries[i].stage
    }

    /// The key at place `i`.
    pub fn key_at(&self, i: usize) -> (r: usize)
        requires
            i < self@.keys.len(),
        ensures
            r == self@.keys[i as int],
    {
        self.entries[i].key
    }

    /// The stage with key `k`, if there is one.
    pub fn get(&self, k: usize) -> (r: Option<&SubModule>)
        ensures
            match r {
                Some(s) => self@.has(k) && s@ == self@.get(k),
                None => !self@.has(k),
            },
    {
        let i = self.find(k);
        if i < self.entries.len() {
            Some(&self.entries[i].stage)
        } else {
            None
        }
    }

    /// Lets key `k` stand for the stage `s`.
    pub fn put(&mut self, k: usize, s: SubModule)
        ensures
            final(self)@ == old(self)@.put(k, s@),
            final(self)@.aligned(),
            old(self)@.wf() ==> final(self)@.wf(),
    {
        proof {
            if self@.wf() {
                self@.lemma_put_wf(k, s@);
            }
        }
        let i = self.find(k);
        if i < self.entries.len() {
            self.entries[i].stage = s;
            assert(self@.items =~= old(self)@.put(k, s@).items);
            assert(self@.keys =~= old(self)@.put(k, s@).keys);
        } else {
            self.entries.push(StageEntry { key: k, stage: s });
            assert(self@.items =~= old(self)@.put(k, s@).items);
            assert(self@.keys =~= old(self)@.put(k, s@).keys);
        }
    }

    /// Sets what leaves the stage at place `i`.
    pub fn close_at(&mut self, i: usize, barriers: Vec<usize>)
        requires
            i < old(self)@.items.len(),
        ensures
            final(self)@ == old(self)@.close_at(i as int, barriers@),
            final(self)@.aligned(),
            old(self)@.wf() ==> final(self)@.wf(),
    {
        self.entries[i].stage.buffered_barriers = barriers;
        assert(self@.items =~= old(self)@.close_at(i as int, barriers@).items);
        assert(self@.keys =~= old(self)@.close_at(i as int, barriers@).keys);
    }

    /// Adds the expression `v` to the body of the stage at place `i`, unless
    /// it is there already.
    pub fn join_at(&mut self, i: usize, v: usize)
        requires
            i < old(self)@.items.len(),
        ensures
            final(self)@ == old(self)@.join_at(i as int, v),
            final(self)@.aligned(),
            old(self)@.wf() ==> final(self)@.wf(),
    {
        if !has_key(&self.entries[i].stage.buffered_expr, v) {
            self.entries[i].stage.buffered_expr.push(v);
            assert(self@.items =~= old(self)@.join_at(i as int, v).items);
            assert(self@.keys =~= old(self)@.join_at(i as int, v).keys);
        }
    }

    /// A copy of this table.
    pub fn copy(&self) -> (r: Self)
        ensures
            r@ == self@,
    {
        let mut entries: Vec<StageEntry> = Vec::new();
        let mut i: usize = 0;
        while i < self.entries.len()
            invariant
                i <= self.entries@.len(),
                entries@.len() == i,
                forall|j: int|
                    0 <= j < i ==> (#[trigger] entries@[j]).stage@ == self.entries@[j].stage@
                        && entries@[j].key == self.entries@[j].key,
            decreases self.entries@.len() - i,
        {
            entries.push(StageEntry { key: self.entries[i].key, stage: self.entries[i].stage.copy() });
            i += 1;
        }
        let r = StageTable { entries };
        assert(r@.items =~= self@.items);
        assert(r@.keys =~= self@.keys);
        r
    }
}

/// What the analysis of one module found: its stages, their order, and the
/// expressions that the rewrite has to move or remove.
pub struct ContainerView {
    pub name: Seq<char>,
    pub table: TableView,
    pub order: Seq<usize>,
    pub callers: Seq<usize>,
    pub barrier_exprs: Seq<usize>,
}

/// The stages of one module that is to be split.
#[derive(Debug, Clone)]
pub struct SubModuleContainer {
    module_name: String,
    sub_module_map: StageTable,
    sub_module_order: Vec<usize>,
    caller_expr: Vec<usize>,
    barrier_expr: Vec<usize>,
}

impl View for SubModuleContainer {
    type V = ContainerView;

    closed spec fn view(&self) -> ContainerView {
        ContainerView {
            name: self.module_name@,
            table: self.sub_module_map@,
            order: self.sub_module_order@,
            callers: self.caller_expr@,
            barrier_exprs: self.barrier_expr@,
        }
    }
}

impl SubModuleContainer {
    /// A container for the module named `name`, without stages.
    pub fn new(name: String) -> (r: Self)
        ensures
            r@.name == name@,
            r@.table.keys.len() == 0,
            r@.table.items.len() == 0,
            r@.order.len() == 0,
            r@.callers.len() == 0,
            r@.barrier_exprs.len() == 0,
    {
        SubModuleContainer {
            module_name: name,
            sub_module_map: StageTable::new(),
            sub_module_order: Vec::new(),
            caller_expr: Vec::new(),
            barrier_expr: Vec::new(),
        }
    }

    /// A container with the given contents.
    pub fn assemble(
        name: String,
        table: StageTable,
        order: Vec<usize>,
        callers: Vec<usize>,
        barrier_exprs: Vec<usize>,
    ) -> (r: Self)
        ensures
            r@ == (ContainerView {
                name: name@,
                table: table@,
                order: order@,
                callers: callers@,
                barrier_exprs: barrier_exprs@,
            }),
    {
        SubModuleContainer {
            module_name: name,
            sub_module_map: table,
            sub_module_order: order,
            caller_expr: callers,
            barrier_expr: barrier_exprs,
        }
    }

    /// The name of the module that the stages came from.
    pub fn module_name(&self) -> (r: &String)
        ensures
            r@ == self@.name,
    {
        &self.module_name
    }

    /// The stages, found by key.
    pub fn sub_module_map(&self) -> (r: &StageTable)
        ensures
            r@ == self@.table,
    {
        &self.sub_module_map
    }

    /// The key of the stage at each level, from level 0 on.
    pub fn sub_module_order(&self) -> (r: &Vec<usize>)
        ensures
            r@ == self@.order,
    {
        &self.sub_module_order
    }

    /// The keys of the expressions that hand data to other modules.
    pub fn caller_expr(&self) -> (r: &Vec<usize>)
        ensures
            r@ == self@.callers,
    {
        &self.caller_expr
    }

    /// The keys of the barrier markers.
    pub fn barrier_expr(&self) -> (r: &Vec<usize>)
        ensures
            r@ == self@.barrier_exprs,
    {
        &self.barrier_expr
    }

    /// The stage at the given level, if the level has one.
    pub fn stage_at(&self, level: usize) -> (r: Option<&SubModule>)
        ensures
            match r {
                Some(s) => level < self@.order.len() && self@.table.has(self@.order[level as int])
                    && s@ == self@.table.get(self@.order[level as int]),
                None => !(level < self@.order.len() && self@.table.has(
                    self@.order[level as int],
                )),
            },
    {
        if level < self.sub_module_order.len() {
            self.sub_module_map.get(self.sub_module_order[level])
        } else {
            None
        }
    }
}

} // verus!
