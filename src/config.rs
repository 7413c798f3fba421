use vstd::prelude::*;
use crate::address::{
    all_raw, all_resolve, label_error, lemma_resolution_concat, lemma_resolve_all_raw,
    resolve_address, resolve_all, resolved, Address, AddressModel, Addresses, AddressesModel, Symbol, SymbolTable,
    UNSET_ADDRESS,
};
use crate::error::ConfigError;
use crate::memory::{
    entry_views, keys, merge_memory, merged_memory, resolve_keys, resolve_memory,
    AssignmentModel, MemoryAssignment, MemoryEntry,
};
use crate::registers::{empty_registers, lemma_registers_resolved_raw, Registers, RegistersModel};

verus! {

pub type MemoryModel = Seq<(AddressModel, AssignmentModel)>;

/// The mathematical value of a [`ConfigResult`].
pub ghost struct ResultModel {
    pub registers: RegistersModel,
    pub memory: MemoryModel,
}

/// The expected state after a run: only what the author chose to assert.
#[derive(Debug, PartialEq)]
pub struct ConfigResult {
    pub resulting_registers: Registers,
    pub resulting_memory: Vec<MemoryEntry>,
}

impl View for ConfigResult {
    type V = ResultModel;

    open spec fn view(&self) -> ResultModel {
        ResultModel {
            registers: self.resulting_registers@,
            memory: entry_views(self.resulting_memory@),
        }
    }
}

impl ResultModel {
    pub open spec fn addresses(self) -> Seq<AddressModel> {
        self.registers.addresses() + keys(self.memory)
    }

    pub open spec fn resolved(self, t: Seq<Symbol>) -> ResultModel {
        ResultModel { registers: self.registers.resolved(t), memory: resolve_keys(self.memory, t) }
    }
}

/// Memory keys of a map resolved with success hold no label.
pub proof fn lemma_memory_resolved_raw(m: MemoryModel, t: Seq<Symbol>)
    requires
        all_resolve(keys(m), t),
    ensures
        all_raw(keys(resolve_keys(m, t))),
        keys(resolve_keys(m, t)) == crate::address::resolve_all(keys(m), t),
{
    assert(keys(resolve_keys(m, t)) =~= crate::address::resolve_all(keys(m), t));
    lemma_resolve_all_raw(keys(m), t);
}

impl ConfigResult {
    pub fn resolve(&self, table: &SymbolTable) -> (r: Result<ConfigResult, ConfigError>)
        ensures
            r is Ok == all_resolve(self@.addresses(), table.symbols@),
            r matches Ok(x) ==> x@ == self@.resolved(table.symbols@),
            r matches Err(e) ==> label_error(e, self@.addresses(), table.symbols@),
    {
        proof {
            lemma_resolution_concat(self@.registers.addresses(), keys(self@.memory), table.symbols@);
        }
        let registers = match self.resulting_registers.resolve(table) {
            Ok(x) => x,
            Err(e) => return Err(e),
        };
        let memory = match resolve_memory(&self.resulting_memory, table) {
            Ok(x) => x,
            Err(e) => return Err(e),
        };
        Ok(ConfigResult { resulting_registers: registers, resulting_memory: memory })
    }
}

/// The mathematical value of a [`ConfigTest`].
pub ghost struct TestModel {
    pub name: Seq<char>,
    pub registers: RegistersModel,
    pub memory: MemoryModel,
    pub result: Option<ResultModel>,
}

/// A named test: its initial registers and memory, and the expected outcome.
#[derive(Debug, PartialEq)]
pub struct ConfigTest {
    pub name: String,
    pub initial_registers: Registers,
    pub initial_memory: Vec<MemoryEntry>,
    pub result: Option<ConfigResult>,
}

pub open spec fn result_view(r: Option<ConfigResult>) -> Option<ResultModel> {
    match r {
        Some(x) => Some(x@),
        None => None,
    }
}

impl View for ConfigTest {
    type V = TestModel;

    open spec fn view(&self) -> TestModel {
        TestModel {
            name: self.name@,
            registers: self.initial_registers@,
            memory: entry_views(self.initial_memory@),
            result: result_view(self.result),
        }
    }
}

impl TestModel {
    pub open spec fn result_addresses(self) -> Seq<AddressModel> {
        match self.result {
            Some(r) => r.addresses(),
            None => Seq::empty(),
        }
    }

    /// Every address of the test: registers, memory keys, then the result's.
    pub open spec fn addresses(self) -> Seq<AddressModel> {
        self.registers.addresses() + keys(self.memory) + self.result_addresses()
    }

    pub open spec fn resolved(self, t: Seq<Symbol>) -> TestModel {
        TestModel {
            registers: self.registers.resolved(t),
            memory: resolve_keys(self.memory, t),
            result: match self.result {
                Some(r) => Some(r.resolved(t)),
                None => None,
            },
            ..self
        }
    }

    /// The effective test: registers and memory inherit the file defaults;
    /// the result has no default and is kept as written.
    pub open spec fn merged(self, registers: RegistersModel, memory: MemoryModel) -> TestModel {
        TestModel {
            registers: self.registers.merged(registers),
            memory: merged_memory(memory, self.memory),
            ..self
        }
    }
}

impl ConfigTest {
    /// A test with the given name and nothing else set.
    pub fn named(name: String) -> (r: ConfigTest)
        ensures
            r@ == (TestModel {
                name: name@,
                registers: empty_registers(),
                memory: Seq::empty(),
                result: None,
            }),
    {
        let r = ConfigTest {
            name,
            initial_registers: Registers::default(),
            initial_memory: Vec::new(),
            result: None,
        };
        assert(entry_views(r.initial_memory@) =~= Seq::empty());
        r
    }

    /// Merges the test with the file-level default registers and memory.
    pub fn merge(&self, registers: &Registers, memory: &Vec<MemoryEntry>) -> (r: ConfigTest)
        ensures
            r@ == self@.merged(registers@, entry_views(memory@)),
    {
        ConfigTest {
            name: self.name.clone(),
            initial_registers: self.initial_registers.merge(registers),
            initial_memory: merge_memory(memory, &self.initial_memory),
            result: clone_result(&self.result),
        }
    }

    pub fn resolve(&self, table: &SymbolTable) -> (r: Result<ConfigTest, ConfigError>)
        ensures
            r is Ok == all_resolve(self@.addresses(), table.symbols@),
            r matches Ok(x) ==> x@ == self@.resolved(table.symbols@),
            r matches Err(e) ==> label_error(e, self@.addresses(), table.symbols@),
    {
        let ghost t = table.symbols@;
        proof {
            lemma_resolution_concat(self@.registers.addresses(), keys(self@.memory), t);
            lemma_resolution_concat(
                self@.registers.addresses() + keys(self@.memory),
                self@.result_addresses(),
                t,
            );
        }
        let registers = match self.initial_registers.resolve(table) {
            Ok(x) => x,
            Err(e) => return Err(e),
        };
        let memory = match resolve_memory(&self.initial_memory, table) {
            Ok(x) => x,
            Err(e) => return Err(e),
        };
        let result = match &self.result {
            Some(x) => match x.resolve(table) {
                Ok(y) => Some(y),
                Err(e) => return Err(e),
            },
            None => None,
        };
        Ok(ConfigTest {
            name: self.name.clone(),
            initial_registers: registers,
            initial_memory: memory,
            result,
        })
    }
}

impl Clone for ConfigResult {
    fn clone(&self) -> (r: Self)
        ensures
            r@ == self@,
    {
        ConfigResult {
            resulting_registers: self.resulting_registers.clone(),
            resulting_memory: clone_memory(&self.resulting_memory),
        }
    }
}

fn clone_result(r: &Option<ConfigResult>) -> (c: Option<ConfigResult>)
    ensures
        result_view(c) == result_view(*r),
{
    match r {
        Some(x) => Some(x.clone()),
        None => None,
    }
}

impl Clone for ConfigTest {
    fn clone(&self) -> (r: Self)
        ensures
            r@ == self@,
    {
        ConfigTest {
            name: self.name.clone(),
            initial_registers: self.initial_registers.clone(),
            initial_memory: clone_memory(&self.initial_memory),
            result: clone_result(&self.result),
        }
    }
}

fn clone_memory(m: &Vec<MemoryEntry>) -> (r: Vec<MemoryEntry>)
    ensures
        entry_views(r@) == entry_views(m@),
{
    let mut out: Vec<MemoryEntry> = Vec::new();
    let mut i: usize = 0;
    while i < m.len()
        invariant
            i <= m@.len(),
            out@.len() == i,
            forall|k: int| 0 <= k < i ==> (#[trigger] out@[k])@ == m@[k]@,
        decreases m@.len() - i,
    {
        out.push(m[i].clone());
        i = i + 1;
    }
    assert(entry_views(out@) =~= entry_views(m@));
    out
}

/// A test-local memory key that the defaults do not assign keeps its own
/// assignment in the effective map; a key assigned in both places maps only
/// to the local assignment there.
pub proof fn lemma_memory_union(d: MemoryModel, l: MemoryModel)
    ensures
        forall|i: int|
            0 <= i < l.len() ==> #[trigger] crate::memory::has_key(merged_memory(d, l), l[i].0)
                && exists|j: int|
                0 <= j < merged_memory(d, l).len() && merged_memory(d, l)[j] == l[i],
        forall|j: int|
            0 <= j < merged_memory(d, l).len() && crate::memory::has_key(
                l,
                #[trigger] merged_memory(d, l)[j].0,
            ) ==> exists|i: int| 0 <= i < l.len() && l[i] == merged_memory(d, l)[j],
        forall|j: int|
            0 <= j < d.len() && !crate::memory::has_key(l, #[trigger] d[j].0) ==> exists|k: int|
                0 <= k < merged_memory(d, l).len() && merged_memory(d, l)[k] == d[j],
{
    let u = crate::memory::unshadowed(d, l);
    let m = merged_memory(d, l);
    crate::memory::lemma_unshadowed(d, l);
    assert forall|i: int| 0 <= i < l.len() implies #[trigger] crate::memory::has_key(m, l[i].0)
        && exists|j: int| 0 <= j < m.len() && m[j] == l[i] by {
        assert(m[u.len() + i] == l[i]);
    }
    assert forall|j: int|
        0 <= j < m.len() && crate::memory::has_key(l, #[trigger] m[j].0) implies exists|i: int|
        0 <= i < l.len() && l[i] == m[j] by {
        if j < u.len() {
            assert(m[j] == u[j]);
        } else {
            assert(m[j] == l[j - u.len()]);
        }
    }
    assert forall|j: int| 0 <= j < d.len() && !crate::memory::has_key(l, #[trigger] d[j].0) implies exists|k: int|
        0 <= k < m.len() && m[k] == d[j] by {
        let k = choose|k: int| 0 <= k < u.len() && u[k] == d[j];
        assert(m[k] == u[k]);
    }
}

/// Lemma: a test resolved with success holds no label.
pub proof fn lemma_test_resolved_raw(x: TestModel, t: Seq<Symbol>)
    requires
        all_resolve(x.addresses(), t),
    ensures
        all_raw(x.resolved(t).addresses()),
{
    let y = x.resolved(t);
    lemma_resolution_concat(x.registers.addresses(), keys(x.memory), t);
    lemma_resolution_concat(x.registers.addresses() + keys(x.memory), x.result_addresses(), t);
    lemma_resolution_concat(y.registers.addresses(), keys(y.memory), t);
    lemma_resolution_concat(y.registers.addresses() + keys(y.memory), y.result_addresses(), t);
    lemma_registers_resolved_raw(x.registers, t);
    lemma_memory_resolved_raw(x.memory, t);
    if let Some(r) = x.result {
        lemma_resolution_concat(r.registers.addresses(), keys(r.memory), t);
        let q = r.resolved(t);
        lemma_resolution_concat(q.registers.addresses(), keys(q.memory), t);
        lemma_registers_resolved_raw(r.registers, t);
        lemma_memory_resolved_raw(r.memory, t);
    }
}

/// The mathematical value of a [`ConfigOther`].
pub ghost enum OtherModel {
    Memory(AssignmentModel),
    Test(TestModel),
}

/// A named top-level entry once classified: bare memory or a whole test.
#[derive(Debug, PartialEq)]
pub enum ConfigOther {
    Memory(MemoryAssignment),
    Test(ConfigTest),
}

impl View for ConfigOther {
    type V = OtherModel;

    open spec fn view(&self) -> OtherModel {
        match self {
            ConfigOther::Memory(m) => OtherModel::Memory(m@),
            ConfigOther::Test(t) => OtherModel::Test(t@),
        }
    }
}

impl ConfigOther {
    pub fn unwrap_test(&self) -> (r: &ConfigTest)
        requires
            self is Test,
        ensures
            OtherModel::Test(r@) == self@,
    {
        match self {
            ConfigOther::Test(test) => test,
            ConfigOther::Memory(_) => {
                assert(false);
                unreached()
            },
        }
    }

    pub fn unwrap_memory(&self) -> (r: &MemoryAssignment)
        requires
            self is Memory,
        ensures
            OtherModel::Memory(r@) == self@,
    {
        match self {
            ConfigOther::Memory(mem) => mem,
            ConfigOther::Test(_) => {
                assert(false);
                unreached()
            },
        }
    }
}

/// Breakpoints are off unless the file turns them on.
pub fn default_enable_breakpoint() -> (r: bool)
    ensures
        r == false,
{
    false
}

/// The largest count, which stands for "no effective timeout".
pub fn default_timeout() -> (r: u16)
    ensures
        r == 0xFFFFu16,
{
    0xFFFF
}

/// The mathematical value of a [`ConfigMeta`].
pub ghost struct MetaModel {
    pub caller: AddressModel,
    pub enable_breakpoints: bool,
    pub timeout: u16,
    pub crash: AddressesModel,
    pub exit: AddressesModel,
    pub stack: Option<AssignmentModel>,
}

/// File-level run settings.
#[derive(Debug, PartialEq)]
pub struct ConfigMeta {
    pub caller: Address,
    pub enable_breakpoints: bool,
    pub timeout: u16,
    pub crash: Addresses,
    pub exit: Addresses,
    pub stack: Option<MemoryAssignment>,
}

pub open spec fn stack_view(s: Option<MemoryAssignment>) -> Option<AssignmentModel> {
    match s {
        Some(a) => Some(a@),
        None => None,
    }
}

impl View for ConfigMeta {
    type V = MetaModel;

    open spec fn view(&self) -> MetaModel {
        MetaModel {
            caller: self.caller@,
            enable_breakpoints: self.enable_breakpoints,
            timeout: self.timeout,
            crash: self.crash@,
            exit: self.exit@,
            stack: stack_view(self.stack),
        }
    }
}

/// The settings of a file that sets none.
pub open spec fn default_meta() -> MetaModel {
    MetaModel {
        caller: AddressModel::Raw(UNSET_ADDRESS),
        enable_breakpoints: false,
        timeout: 0xFFFF,
        crash: AddressesModel::Single(AddressModel::Raw(UNSET_ADDRESS)),
        exit: AddressesModel::Single(AddressModel::Raw(UNSET_ADDRESS)),
        stack: None,
    }
}

impl Default for ConfigMeta {
    fn default() -> (r: Self)
        ensures
            r@ == default_meta(),
    {
        ConfigMeta {
            caller: Address::default(),
            enable_breakpoints: default_enable_breakpoint(),
            timeout: default_timeout(),
            crash: Addresses::default(),
            exit: Addresses::default(),
            stack: None,
        }
    }
}

impl MetaModel {
    /// The caller, then the crash points, then the exit points.
    pub open spec fn addresses(self) -> Seq<AddressModel> {
        seq![self.caller] + self.crash.points() + self.exit.points()
    }

    pub open spec fn resolved(self, t: Seq<Symbol>) -> MetaModel {
        MetaModel {
            caller: resolved(self.caller, t),
            crash: self.crash.resolved(t),
            exit: self.exit.resolved(t),
            ..self
        }
    }
}

/// Lemma: settings resolved with success hold no label.
pub proof fn lemma_meta_resolved_raw(m: MetaModel, t: Seq<Symbol>)
    requires
        all_resolve(m.addresses(), t),
    ensures
        all_raw(m.resolved(t).addresses()),
{
    let q = m.resolved(t);
    lemma_resolution_concat(seq![m.caller], m.crash.points(), t);
    lemma_resolution_concat(seq![m.caller] + m.crash.points(), m.exit.points(), t);
    lemma_resolution_concat(seq![q.caller], q.crash.points(), t);
    lemma_resolution_concat(seq![q.caller] + q.crash.points(), q.exit.points(), t);
    assert(resolve_address(seq![m.caller][0], t) is Some);
    lemma_resolve_all_raw(m.crash.points(), t);
    lemma_resolve_all_raw(m.exit.points(), t);
    lemma_resolve_all_raw(seq![m.caller], t);
    assert(seq![q.caller] =~= resolve_all(seq![m.caller], t));
    if let AddressesModel::Single(a) = m.crash {
        assert(q.crash.points() =~= resolve_all(m.crash.points(), t));
    }
    if let AddressesModel::Single(a) = m.exit {
        assert(q.exit.points() =~= resolve_all(m.exit.points(), t));
    }
}

impl ConfigMeta {
    pub fn resolve(&self, table: &SymbolTable) -> (r: Result<ConfigMeta, ConfigError>)
        ensures
            r is Ok == all_resolve(self@.addresses(), table.symbols@),
            r matches Ok(x) ==> x@ == self@.resolved(table.symbols@),
            r matches Err(e) ==> label_error(e, self@.addresses(), table.symbols@),
    {
        let ghost t = table.symbols@;
        let ghost s0 = seq![self@.caller];
        proof {
            lemma_resolution_concat(s0, self@.crash.points(), t);
            lemma_resolution_concat(s0 + self@.crash.points(), self@.exit.points(), t);
            assert(s0[0] == self.caller@);
        }
        let caller = match self.caller.resolve(table) {
            Ok(x) => x,
            Err(e) => return Err(e),
        };
        let crash = match self.crash.resolve(table) {
            Ok(x) => x,
            Err(e) => return Err(e),
        };
        let exit = match self.exit.resolve(table) {
            Ok(x) => x,
            Err(e) => return Err(e),
        };
        let stack = match &self.stack {
            Some(a) => Some(a.clone()),
            None => None,
        };
        Ok(ConfigMeta {
            caller,
            enable_breakpoints: self.enable_breakpoints,
            timeout: self.timeout,
            crash,
            exit,
            stack,
        })
    }
}

} // verus!
