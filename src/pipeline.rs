use vstd::prelude::*;
use crate::address::{
    all_raw, all_resolve, label_error, lemma_resolution_concat, parse_token, Address,
    AddressModel, Symbol, SymbolTable,
};
use crate::config::{
    lemma_meta_resolved_raw, lemma_test_resolved_raw, lemma_memory_resolved_raw, ConfigMeta,
    ConfigOther, ConfigTest, MemoryModel, MetaModel, TestModel,
};
use crate::error::ConfigError;
use crate::memory::{
    entry_views, keys, resolve_keys, resolve_memory, AssignmentModel, MemoryEntry,
};
use crate::registers::{lemma_registers_resolved_raw, Registers, RegistersModel};

verus! {

/// One named top-level entry of a configuration.
#[derive(Debug, PartialEq)]
pub struct NamedEntry {
    pub name: String,
    pub entry: ConfigOther,
}

/// A configuration read from its document, entries classified but not yet
/// merged or resolved.
#[derive(Debug, PartialEq)]
pub struct UnprocessedConfigFile {
    pub default_config: ConfigMeta,
    pub default_registers: Registers,
    pub others: Vec<NamedEntry>,
}

/// The tests among the entries, in order.
pub open spec fn test_entries(s: Seq<NamedEntry>) -> Seq<TestModel>
    decreases s.len(),
{
    if s.len() == 0 {
        Seq::empty()
    } else {
        match s.last().entry {
            ConfigOther::Test(t) => test_entries(s.drop_last()).push(t@),
            ConfigOther::Memory(_) => test_entries(s.drop_last()),
        }
    }
}

/// The memory entries, as name and assignment, in order.
pub open spec fn memory_entries(s: Seq<NamedEntry>) -> Seq<(Seq<char>, AssignmentModel)>
    decreases s.len(),
{
    if s.len() == 0 {
        Seq::empty()
    } else {
        match s.last().entry {
            ConfigOther::Memory(m) => memory_entries(s.drop_last()).push((s.last().name@, m@)),
            ConfigOther::Test(_) => memory_entries(s.drop_last()),
        }
    }
}

/// Every memory entry's name reads as an address.
pub open spec fn names_parse(m: Seq<(Seq<char>, AssignmentModel)>) -> bool {
    forall|i: int| 0 <= i < m.len() ==> (#[trigger] parse_token(m[i].0)) is Some
}

/// The memory map that the memory entries make, each name read as its key.
pub open spec fn keyed(m: Seq<(Seq<char>, AssignmentModel)>) -> MemoryModel {
    m.map_values(|e: (Seq<char>, AssignmentModel)| (parse_token(e.0)->Some_0, e.1))
}

/// What an invalid-token error says of the memory entries.
pub open spec fn token_error(e: ConfigError, m: Seq<(Seq<char>, AssignmentModel)>) -> bool {
    e matches ConfigError::InvalidAddressToken(n) && parse_token(n@) is None && exists|i: int|
        0 <= i < m.len() && m[i].0 == n@
}

impl UnprocessedConfigFile {
    /// The entries classified as tests, in order.
    pub fn tests(&self) -> (r: Vec<ConfigTest>)
        ensures
            r@.map_values(|t: ConfigTest| t@) == test_entries(self.others@),
    {
        let ghost s = self.others@;
        let mut out: Vec<ConfigTest> = Vec::new();
        let mut i: usize = 0;
        while i < self.others.len()
            invariant
                i <= s.len(),
                s == self.others@,
                out@.map_values(|t: ConfigTest| t@) == test_entries(s.take(i as int)),
            decreases s.len() - i,
        {
            assert(s.take(i + 1).drop_last() =~= s.take(i as int));
            assert(s.take(i + 1).last() == s[i as int]);
            if let ConfigOther::Test(_) = &self.others[i].entry {
                let t = self.others[i].entry.unwrap_test();
                let c = t.clone();
                let ghost prev = out@;
                out.push(c);
                assert(out@.map_values(|t: ConfigTest| t@) =~= prev.map_values(
                    |t: ConfigTest| t@,
                ).push(c@));
            }
            i = i + 1;
        }
        assert(s.take(s.len() as int) =~= s);
        out
    }

    /// The entries classified as memory, each name read as an address.
    pub fn memory_assignments(&self) -> (r: Result<Vec<MemoryEntry>, ConfigError>)
        ensures
            r is Ok == names_parse(memory_entries(self.others@)),
            r matches Ok(w) ==> entry_views(w@) == keyed(memory_entries(self.others@)),
            r matches Err(e) ==> token_error(e, memory_entries(self.others@)),
    {
        let ghost s = self.others@;
        let mut out: Vec<MemoryEntry> = Vec::new();
        let mut i: usize = 0;
        while i < self.others.len()
            invariant
                i <= s.len(),
                s == self.others@,
                names_parse(memory_entries(s.take(i as int))),
                entry_views(out@) == keyed(memory_entries(s.take(i as int))),
                memory_entries(s.take(i as int)).len() <= memory_entries(s).len(),
                forall|k: int|
                    0 <= k < memory_entries(s.take(i as int)).len() ==> #[trigger] memory_entries(
                        s.take(i as int),
                    )[k] == memory_entries(s)[k],
            decreases s.len() - i,
        {
            let ghost pre = memory_entries(s.take(i as int));
            let ghost post = memory_entries(s.take(i + 1));
            assert(s.take(i + 1).drop_last() =~= s.take(i as int));
            assert(s.take(i + 1).last() == s[i as int]);
            proof {
                lemma_memory_entries_prefix(s, i + 1);
            }
            if let ConfigOther::Memory(_) = &self.others[i].entry {
                let m = self.others[i].entry.unwrap_memory();
                assert(post[pre.len() as int] == (self.others[i as int].name@, m@));
                match Address::try_from(&self.others[i].name) {
                    Ok(a) => {
                        let ghost prev = out@;
                        let e = MemoryEntry { address: a, assignment: m.clone() };
                        out.push(e);
                        assert(entry_views(out@) =~= entry_views(prev).push(e@));
                        assert(keyed(post) =~= keyed(pre).push(e@));
                    },
                    Err(e) => {
                        assert(memory_entries(s)[pre.len() as int] == post[pre.len() as int]);
                        assert(parse_token(memory_entries(s)[pre.len() as int].0) is None);
                        return Err(e);
                    },
                }
            }
            i = i + 1;
        }
        assert(s.take(s.len() as int) =~= s);
        Ok(out)
    }
}

/// The memory entries of a prefix are a prefix of the memory entries.
proof fn lemma_memory_entries_prefix(s: Seq<NamedEntry>, j: int)
    requires
        0 <= j <= s.len(),
    ensures
        memory_entries(s.take(j)).len() <= memory_entries(s).len(),
        forall|k: int|
            0 <= k < memory_entries(s.take(j)).len() ==> #[trigger] memory_entries(s.take(j))[k]
                == memory_entries(s)[k],
    decreases s.len(),
{
    if j == s.len() {
        assert(s.take(j) =~= s);
    } else {
        let p = s.drop_last();
        lemma_memory_entries_prefix(p, j);
        assert(p.take(j) =~= s.take(j));
    }
}

/// The mathematical value of a [`ConfigFile`] or a [`ResolvedConfig`].
pub ghost struct ConfigModel {
    pub meta: MetaModel,
    pub registers: RegistersModel,
    pub memory: MemoryModel,
    pub tests: Seq<TestModel>,
}

/// The addresses of the tests, test after test.
pub open spec fn tests_addresses(s: Seq<TestModel>) -> Seq<AddressModel>
    decreases s.len(),
{
    if s.len() == 0 {
        Seq::empty()
    } else {
        tests_addresses(s.drop_last()) + s.last().addresses()
    }
}

impl ConfigModel {
    /// Every address of the configuration: settings, default registers,
    /// default memory keys, then each test's.
    pub open spec fn addresses(self) -> Seq<AddressModel> {
        self.meta.addresses() + self.registers.addresses() + keys(self.memory) + tests_addresses(
            self.tests,
        )
    }

    /// Each test merged with the file-level defaults.
    pub open spec fn merged(self) -> ConfigModel {
        ConfigModel {
            tests: self.tests.map_values(|x: TestModel| x.merged(self.registers, self.memory)),
            ..self
        }
    }

    pub open spec fn resolved(self, t: Seq<Symbol>) -> ConfigModel {
        ConfigModel {
            meta: self.meta.resolved(t),
            registers: self.registers.resolved(t),
            memory: resolve_keys(self.memory, t),
            tests: self.tests.map_values(|x: TestModel| x.resolved(t)),
        }
    }
}

/// A classified configuration with its memory entries keyed by address.
#[derive(Debug, PartialEq)]
pub struct ConfigFile {
    pub default_config: ConfigMeta,
    pub default_registers: Registers,
    pub default_memory: Vec<MemoryEntry>,
    pub tests: Vec<ConfigTest>,
}

/// A configuration ready for execution: tests merged with the defaults and
/// every address concrete.
#[derive(Debug, PartialEq)]
pub struct ResolvedConfig {
    pub default_config: ConfigMeta,
    pub default_registers: Registers,
    pub default_memory: Vec<MemoryEntry>,
    pub tests: Vec<ConfigTest>,
}

pub open spec fn test_views(s: Seq<ConfigTest>) -> Seq<TestModel> {
    s.map_values(|t: ConfigTest| t@)
}

impl View for ConfigFile {
    type V = ConfigModel;

    open spec fn view(&self) -> ConfigModel {
        ConfigModel {
            meta: self.default_config@,
            registers: self.default_registers@,
            memory: entry_views(self.default_memory@),
            tests: test_views(self.tests@),
        }
    }
}

impl View for ResolvedConfig {
    type V = ConfigModel;

    open spec fn view(&self) -> ConfigModel {
        ConfigModel {
            meta: self.default_config@,
            registers: self.default_registers@,
            memory: entry_views(self.default_memory@),
            tests: test_views(self.tests@),
        }
    }
}

proof fn lemma_tests_resolved_raw(s: Seq<TestModel>, t: Seq<Symbol>)
    requires
        all_resolve(tests_addresses(s), t),
    ensures
        all_raw(tests_addresses(s.map_values(|x: TestModel| x.resolved(t)))),
    decreases s.len(),
{
    if s.len() > 0 {
        let p = s.drop_last();
        let q = s.map_values(|x: TestModel| x.resolved(t));
        lemma_resolution_concat(tests_addresses(p), s.last().addresses(), t);
        lemma_tests_resolved_raw(p, t);
        lemma_test_resolved_raw(s.last(), t);
        assert(q.drop_last() =~= p.map_values(|x: TestModel| x.resolved(t)));
        lemma_resolution_concat(tests_addresses(q.drop_last()), q.last().addresses(), t);
    }
}

/// A configuration whose addresses all resolve holds, once resolved, no
/// label anywhere.
pub proof fn lemma_label_closure(c: ConfigModel, t: Seq<Symbol>)
    requires
        all_resolve(c.addresses(), t),
    ensures
        all_raw(c.resolved(t).addresses()),
{
    let q = c.resolved(t);
    let a1 = c.meta.addresses();
    let a2 = c.registers.addresses();
    let a3 = keys(c.memory);
    let a4 = tests_addresses(c.tests);
    lemma_resolution_concat(a1, a2, t);
    lemma_resolution_concat(a1 + a2, a3, t);
    lemma_resolution_concat(a1 + a2 + a3, a4, t);
    let b1 = q.meta.addresses();
    let b2 = q.registers.addresses();
    let b3 = keys(q.memory);
    let b4 = tests_addresses(q.tests);
    lemma_resolution_concat(b1, b2, t);
    lemma_resolution_concat(b1 + b2, b3, t);
    lemma_resolution_concat(b1 + b2 + b3, b4, t);
    lemma_meta_resolved_raw(c.meta, t);
    lemma_registers_resolved_raw(c.registers, t);
    lemma_memory_resolved_raw(c.memory, t);
    lemma_tests_resolved_raw(c.tests, t);
}

impl ConfigFile {
    /// Splits the classified entries into default memory and tests; fails
    /// when a memory entry's name is no address token.
    pub fn try_from(uconfig: UnprocessedConfigFile) -> (r: Result<ConfigFile, ConfigError>)
        ensures
            r is Ok == names_parse(memory_entries(uconfig.others@)),
            r matches Ok(c) ==> c@ == (ConfigModel {
                meta: uconfig.default_config@,
                registers: uconfig.default_registers@,
                memory: keyed(memory_entries(uconfig.others@)),
                tests: test_entries(uconfig.others@),
            }),
            r matches Err(e) ==> token_error(e, memory_entries(uconfig.others@)),
    {
        let default_memory = match uconfig.memory_assignments() {
            Ok(m) => m,
            Err(e) => return Err(e),
        };
        let tests = uconfig.tests();
        Ok(
            ConfigFile {
                default_memory,
                tests,
                default_config: uconfig.default_config,
                default_registers: uconfig.default_registers,
            },
        )
    }

    /// Merges each test with the defaults and resolves every label against
    /// the symbol table; fails on the first label that the table lacks.
    pub fn resolve(&self, table: &SymbolTable) -> (r: Result<ResolvedConfig, ConfigError>)
        ensures
            r is Ok == all_resolve(self@.merged().addresses(), table.symbols@),
            r matches Ok(c) ==> c@ == self@.merged().resolved(table.symbols@) && all_raw(
                c@.addresses(),
            ),
            r matches Err(e) ==> label_error(e, self@.merged().addresses(), table.symbols@),
    {
        let ghost t = table.symbols@;
        let ghost m = self@.merged();
        let ghost a1 = m.meta.addresses();
        let ghost a2 = m.registers.addresses();
        let ghost a3 = keys(m.memory);
        let ghost a4 = tests_addresses(m.tests);
        proof {
            lemma_resolution_concat(a1, a2, t);
            lemma_resolution_concat(a1 + a2, a3, t);
            lemma_resolution_concat(a1 + a2 + a3, a4, t);
        }
        let default_config = match self.default_config.resolve(table) {
            Ok(x) => x,
            Err(e) => return Err(e),
        };
        let default_registers = match self.default_registers.resolve(table) {
            Ok(x) => x,
            Err(e) => return Err(e),
        };
        let default_memory = match resolve_memory(&self.default_memory, table) {
            Ok(x) => x,
            Err(e) => return Err(e),
        };
        let mut tests: Vec<ConfigTest> = Vec::new();
        let mut i: usize = 0;
        while i < self.tests.len()
            invariant
                i <= self.tests@.len(),
                m == self@.merged(),
                t == table.symbols@,
                a1 == m.meta.addresses(),
                a2 == m.registers.addresses(),
                a3 == keys(m.memory),
                a4 == tests_addresses(m.tests),
                all_resolve(a1 + a2 + a3, t),
                all_resolve(tests_addresses(m.tests.take(i as int)), t),
                test_views(tests@) == m.tests.take(i as int).map_values(
                    |x: TestModel| x.resolved(t),
                ),
            decreases self.tests@.len() - i,
        {
            proof {
                assert(m.tests.take(i + 1).drop_last() =~= m.tests.take(i as int));
                lemma_resolution_concat(
                    tests_addresses(m.tests.take(i as int)),
                    m.tests[i as int].addresses(),
                    t,
                );
            }
            let merged = self.tests[i].merge(&self.default_registers, &self.default_memory);
            match merged.resolve(table) {
                Ok(x) => {
                    let ghost prev = tests@;
                    tests.push(x);
                    assert(test_views(tests@) =~= test_views(prev).push(x@));
                    assert(m.tests.take(i + 1).map_values(|x: TestModel| x.resolved(t))
                        =~= m.tests.take(i as int).map_values(|x: TestModel| x.resolved(t)).push(
                        m.tests[i as int].resolved(t),
                    ));
                },
                Err(e) => {
                    proof {
                        lemma_tests_addresses_prefix(m.tests, i + 1);
                        let n = e->UnresolvedLabel_0@;
                        assert(merged@ == m.tests[i as int]);
                        assert(m.tests.take(i + 1).last() == m.tests[i as int]);
                        assert(crate::address::unresolved_in(n, m.tests[i as int].addresses(), t));
                        assert(crate::address::unresolved_in(
                            n,
                            tests_addresses(m.tests.take(i + 1)),
                            t,
                        ));
                        assert(crate::address::unresolved_in(n, a4, t));
                        lemma_resolution_concat(a1, a2, t);
                        lemma_resolution_concat(a1 + a2, a3, t);
                        lemma_resolution_concat(a1 + a2 + a3, a4, t);
                        crate::address::lemma_unresolved_blocks(n, a4, t);
                    }
                    return Err(e);
                },
            }
            i = i + 1;
        }
        proof {
            assert(m.tests.take(i as int) =~= m.tests);
        }
        let r = ResolvedConfig { default_config, default_registers, default_memory, tests };
        proof {
            assert(r@.tests =~= m.resolved(t).tests);
            lemma_label_closure(m, t);
        }
        Ok(r)
    }
}

/// The addresses of a prefix of the tests occur among the addresses of all.
proof fn lemma_tests_addresses_prefix(s: Seq<TestModel>, j: int)
    requires
        0 <= j <= s.len(),
    ensures
        forall|n: Seq<char>, t: Seq<Symbol>|
            #[trigger] crate::address::unresolved_in(n, tests_addresses(s.take(j)), t)
                ==> crate::address::unresolved_in(n, tests_addresses(s), t),
    decreases s.len(),
{
    if j == s.len() {
        assert(s.take(j) =~= s);
    } else {
        let p = s.drop_last();
        lemma_tests_addresses_prefix(p, j);
        assert(p.take(j) =~= s.take(j));
        assert forall|n: Seq<char>, t: Seq<Symbol>|
            #[trigger] crate::address::unresolved_in(n, tests_addresses(s.take(j)), t)
                implies crate::address::unresolved_in(n, tests_addresses(s), t) by {
            lemma_resolution_concat(tests_addresses(p), s.last().addresses(), t);
        }
    }
}

} // verus!
