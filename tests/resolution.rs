use config_parser::address::{Address, Addresses, Symbol, SymbolTable};
use config_parser::classify::{classify, EntryKind, RawField, RawNode};
use config_parser::config::{
    default_enable_breakpoint, default_timeout, ConfigMeta, ConfigOther, ConfigResult, ConfigTest,
};
use config_parser::document::{load, resolve_document};
use config_parser::error::{ConfigError, Violation};
use config_parser::memory::{merge_memory, MemoryAssignment, MemoryEntry, MemoryValue};
use config_parser::pipeline::{ConfigFile, NamedEntry, ResolvedConfig, UnprocessedConfigFile};
use config_parser::registers::Registers;

fn field(key: &str, value: RawNode) -> RawField {
    RawField { key: key.to_string(), value }
}

fn text(s: &str) -> RawNode {
    RawNode::Text(s.to_string())
}

fn table(fields: Vec<RawField>) -> RawNode {
    RawNode::Table(fields)
}

fn symbols(pairs: &[(&str, u16)]) -> SymbolTable {
    SymbolTable {
        symbols: pairs
            .iter()
            .map(|(n, a)| Symbol { name: n.to_string(), address: *a })
            .collect(),
    }
}

fn empty_test(name: &str) -> ConfigTest {
    ConfigTest {
        name: name.to_string(),
        initial_registers: Registers::default(),
        initial_memory: Vec::new(),
        result: None,
    }
}

fn entry(address: u16, assignment: MemoryAssignment) -> MemoryEntry {
    MemoryEntry { address: Address::Raw(address), assignment }
}

#[test]
fn parse_default() {
    let doc = vec![field("default", table(vec![]))];
    let uconfig = UnprocessedConfigFile::from_document(&doc);

    assert_eq!(
        uconfig,
        Ok(UnprocessedConfigFile {
            default_config: ConfigMeta::default(),
            default_registers: Registers::default(),
            others: vec![NamedEntry {
                name: "default".to_string(),
                entry: ConfigOther::Test(empty_test("default")),
            }],
        })
    );
}

#[test]
fn parse_basic() {
    let doc = vec![
        field("caller", text("0x0100")),
        field("exit", text("exit")),
        field(
            "test1",
            table(vec![
                field("a", RawNode::Integer(9)),
                field("result", table(vec![field("a", RawNode::Integer(10))])),
            ]),
        ),
    ];
    let uconfig = UnprocessedConfigFile::from_document(&doc);

    let mut initial = Registers::default();
    initial.a = Some(9);
    let mut resulting = Registers::default();
    resulting.a = Some(10);
    assert_eq!(
        uconfig,
        Ok(UnprocessedConfigFile {
            default_config: ConfigMeta {
                caller: Address::Raw(0x0100),
                enable_breakpoints: default_enable_breakpoint(),
                timeout: default_timeout(),
                crash: Addresses::default(),
                exit: Addresses::Single(Address::Label("exit".to_string())),
                stack: None,
            },
            default_registers: Registers::default(),
            others: vec![NamedEntry {
                name: "test1".to_string(),
                entry: ConfigOther::Test(ConfigTest {
                    name: "test1".to_string(),
                    initial_registers: initial,
                    initial_memory: Vec::new(),
                    result: Some(ConfigResult {
                        resulting_registers: resulting,
                        resulting_memory: Vec::new(),
                    }),
                }),
            }],
        })
    );
}

#[test]
fn empty_entry_resolves_to_blank_test() {
    let doc = vec![field("default", table(vec![]))];
    let resolved = resolve_document(&doc, &symbols(&[])).unwrap();
    assert_eq!(resolved.tests, vec![empty_test("default")]);
    assert_eq!(resolved.default_memory, Vec::new());
    assert_eq!(resolved.default_config, ConfigMeta::default());
}

#[test]
fn basic_file_resolves_exit_label() {
    let doc = vec![
        field("caller", text("0x0100")),
        field("exit", text("exit")),
        field(
            "test1",
            table(vec![
                field("a", RawNode::Integer(9)),
                field("result", table(vec![field("a", RawNode::Integer(10))])),
            ]),
        ),
    ];
    let resolved = resolve_document(&doc, &symbols(&[("exit", 0x4000)])).unwrap();
    assert_eq!(resolved.default_config.caller, Address::Raw(0x0100));
    assert_eq!(resolved.default_config.exit, Addresses::Single(Address::Raw(0x4000)));
    assert_eq!(resolved.tests.len(), 1);
    let test = &resolved.tests[0];
    let mut initial = Registers::default();
    initial.a = Some(9);
    let mut resulting = Registers::default();
    resulting.a = Some(10);
    assert_eq!(test.initial_registers, initial);
    assert_eq!(test.initial_memory, Vec::new());
    assert_eq!(
        test.result,
        Some(ConfigResult { resulting_registers: resulting, resulting_memory: Vec::new() })
    );
}

#[test]
fn overlapping_memory_entries_are_reported() {
    let doc = vec![
        field("caller", RawNode::Integer(0x0100)),
        field(
            "0x8000",
            RawNode::Array(vec![
                RawNode::Integer(1),
                RawNode::Integer(2),
                RawNode::Integer(3),
                RawNode::Integer(4),
            ]),
        ),
        field("0x8002", RawNode::Integer(5)),
    ];
    let r = load(&doc, &symbols(&[]));
    assert_eq!(
        r,
        Err(ConfigError::ValidationFailure(vec![Violation::MemoryOverlap(None, 0x8000, 0x8002)]))
    );
}

#[test]
fn adjacent_memory_entries_do_not_overlap() {
    let doc = vec![
        field("caller", RawNode::Integer(0x0100)),
        field("0x8000", text("abcd")),
        field("0x8004", RawNode::Integer(5)),
    ];
    assert!(load(&doc, &symbols(&[])).is_ok());
}

#[test]
fn unknown_key_makes_entry_ambiguous() {
    let doc = vec![field("test1", table(vec![field("foo", RawNode::Integer(1))]))];
    let r = resolve_document(&doc, &symbols(&[]));
    assert_eq!(r, Err(ConfigError::AmbiguousEntry("foo".to_string())));
}

#[test]
fn boolean_entry_is_ambiguous() {
    let r = classify(&"flag".to_string(), &RawNode::Boolean(true));
    assert_eq!(r, Err(ConfigError::AmbiguousEntry("flag".to_string())));
}

#[test]
fn unresolved_crash_label_fails_resolution() {
    let doc = vec![
        field("caller", RawNode::Integer(0x0100)),
        field("crash", text("boom")),
        field("default", table(vec![])),
    ];
    let r = resolve_document(&doc, &symbols(&[("exit", 0x4000)]));
    assert_eq!(r, Err(ConfigError::UnresolvedLabel("boom".to_string())));
}

#[test]
fn classification_is_deterministic() {
    let name = "t".to_string();
    let node = table(vec![field("a", RawNode::Integer(1)), field("0x10", RawNode::Integer(2))]);
    assert_eq!(classify(&name, &node), classify(&name, &node));
    assert_eq!(classify(&name, &node), Ok(EntryKind::Test));
    let mem = RawNode::Array(vec![RawNode::Integer(1), text("hi")]);
    assert_eq!(classify(&name, &mem), Ok(EntryKind::Memory));
    assert_eq!(classify(&name, &mem), classify(&name, &mem));
}

#[test]
fn numeric_tokens_survive_resolution() {
    let table = symbols(&[("x", 1)]);
    for (token, value) in [("0x1234", 0x1234u16), ("4660", 0x1234), ("0", 0), ("0XffFF", 0xFFFF)] {
        let a = Address::from_raw_token(token).unwrap();
        assert_eq!(a, Address::Raw(value));
        let once = a.resolve(&table).unwrap();
        assert_eq!(once, Address::Raw(value));
        assert_eq!(once.resolve(&table).unwrap(), Address::Raw(value));
    }
}

#[test]
fn address_tokens() {
    assert_eq!(Address::from_raw_token("65535"), Ok(Address::Raw(0xFFFF)));
    assert_eq!(Address::from_raw_token("_start"), Ok(Address::Label("_start".to_string())));
    for bad in ["65536", "0x10000", "9abc", "", "0x", "a-b"] {
        assert_eq!(
            Address::from_raw_token(bad),
            Err(ConfigError::InvalidAddressToken(bad.to_string()))
        );
    }
    assert_eq!(Address::try_from(&"0x20".to_string()), Ok(Address::Raw(0x20)));
}

#[test]
fn later_symbol_wins() {
    let table = symbols(&[("main", 0x100), ("main", 0x200)]);
    assert_eq!(table.lookup(&"main".to_string()), Some(0x200));
    assert_eq!(table.lookup(&"other".to_string()), None);
    assert_eq!(
        Address::Label("main".to_string()).resolve(&table),
        Ok(Address::Raw(0x200))
    );
}

#[test]
fn resolved_configuration_holds_no_label() {
    let doc = vec![
        field("caller", text("start")),
        field("crash", RawNode::Array(vec![text("crash1"), RawNode::Integer(0x10)])),
        field("exit", text("done")),
        field("sp", text("stack_top")),
        field("buffer", text("xyz")),
        field(
            "t",
            table(vec![
                field("hl", text("buffer")),
                field("result", table(vec![field("pc", text("done"))])),
            ]),
        ),
    ];
    let table = symbols(&[
        ("start", 0x100),
        ("crash1", 0x200),
        ("done", 0x300),
        ("stack_top", 0xF000),
        ("buffer", 0x9000),
    ]);
    let c = resolve_document(&doc, &table).unwrap();
    assert_eq!(c.default_config.caller, Address::Raw(0x100));
    assert_eq!(
        c.default_config.crash,
        Addresses::Multiple(vec![Address::Raw(0x200), Address::Raw(0x10)])
    );
    assert_eq!(c.default_registers.sp, Some(Address::Raw(0xF000)));
    assert_eq!(c.default_memory[0].address, Address::Raw(0x9000));
    let t = &c.tests[0];
    assert_eq!(t.initial_registers.hl, Some(Address::Raw(0x9000)));
    assert_eq!(t.initial_registers.sp, Some(Address::Raw(0xF000)));
    assert_eq!(t.initial_memory[0].address, Address::Raw(0x9000));
    assert_eq!(
        t.result.as_ref().unwrap().resulting_registers.pc,
        Some(Address::Raw(0x300))
    );
}

#[test]
fn registers_inherit_defaults() {
    let mut defaults = Registers::default();
    defaults.a = Some(1);
    defaults.b = Some(2);
    defaults.sp = Some(Address::Raw(0xF000));
    let mut local = Registers::default();
    local.b = Some(7);
    local.hl = Some(Address::Label("buf".to_string()));
    let merged = local.merge(&defaults);
    assert_eq!(merged.a, Some(1));
    assert_eq!(merged.b, Some(7));
    assert_eq!(merged.c, None);
    assert_eq!(merged.sp, Some(Address::Raw(0xF000)));
    assert_eq!(merged.hl, Some(Address::Label("buf".to_string())));
    assert_eq!(merged.pc, None);
}

#[test]
fn memory_union_local_wins() {
    let defaults = vec![
        entry(0x1000, MemoryAssignment::Byte(1)),
        entry(0x2000, MemoryAssignment::Byte(2)),
    ];
    let local = vec![
        entry(0x2000, MemoryAssignment::Byte(9)),
        entry(0x3000, MemoryAssignment::String("ok".to_string())),
    ];
    let merged = merge_memory(&defaults, &local);
    assert_eq!(
        merged,
        vec![
            entry(0x1000, MemoryAssignment::Byte(1)),
            entry(0x2000, MemoryAssignment::Byte(9)),
            entry(0x3000, MemoryAssignment::String("ok".to_string())),
        ]
    );
}

#[test]
fn test_merges_file_memory() {
    let doc = vec![
        field("a", RawNode::Integer(3)),
        field("0x1000", RawNode::Integer(1)),
        field("t", table(vec![field("0x1000", RawNode::Integer(8)), field("b", RawNode::Integer(4))])),
    ];
    let c = resolve_document(&doc, &symbols(&[])).unwrap();
    let t = &c.tests[0];
    assert_eq!(t.initial_registers.a, Some(3));
    assert_eq!(t.initial_registers.b, Some(4));
    assert_eq!(t.initial_memory, vec![entry(0x1000, MemoryAssignment::Byte(8))]);
    assert_eq!(c.default_memory, vec![entry(0x1000, MemoryAssignment::Byte(1))]);
}

#[test]
fn byte_out_of_range_is_shape_mismatch() {
    let doc = vec![field("t", table(vec![field("a", RawNode::Integer(300))]))];
    assert_eq!(
        resolve_document(&doc, &symbols(&[])),
        Err(ConfigError::ShapeMismatch("a".to_string()))
    );
    let doc = vec![field("timeout", text("soon"))];
    assert_eq!(
        resolve_document(&doc, &symbols(&[])),
        Err(ConfigError::ShapeMismatch("timeout".to_string()))
    );
}

#[test]
fn bad_memory_name_is_invalid_token() {
    let doc = vec![field("9zz", RawNode::Integer(5))];
    assert_eq!(
        resolve_document(&doc, &symbols(&[])),
        Err(ConfigError::InvalidAddressToken("9zz".to_string()))
    );
}

#[test]
fn validation_collects_every_violation() {
    let doc = vec![
        field("crash", RawNode::Array(vec![RawNode::Integer(0xFFFF)])),
        field("0xFFFF", RawNode::Integer(1)),
    ];
    let r = load(&doc, &symbols(&[]));
    assert_eq!(
        r,
        Err(ConfigError::ValidationFailure(vec![
            Violation::UnsetCaller,
            Violation::UnsetCrashPoint,
            Violation::UnsetMemoryKey(None),
        ]))
    );
}

#[test]
fn duplicate_test_names_are_reported() {
    let c = ResolvedConfig {
        default_config: ConfigMeta {
            caller: Address::Raw(0x100),
            enable_breakpoints: true,
            timeout: 10,
            crash: Addresses::default(),
            exit: Addresses::default(),
            stack: None,
        },
        default_registers: Registers::default(),
        default_memory: Vec::new(),
        tests: vec![empty_test("x"), empty_test("y"), empty_test("x")],
    };
    assert_eq!(
        c.validate(),
        Err(ConfigError::ValidationFailure(vec![Violation::DuplicateTestName("x".to_string())]))
    );
}

#[test]
fn overlap_inside_test_names_the_test() {
    let doc = vec![
        field("caller", RawNode::Integer(0x100)),
        field(
            "t",
            table(vec![
                field("0x10", text("hello")),
                field("0x12", RawNode::Integer(1)),
            ]),
        ),
    ];
    assert_eq!(
        load(&doc, &symbols(&[])),
        Err(ConfigError::ValidationFailure(vec![Violation::MemoryOverlap(
            Some("t".to_string()),
            0x10,
            0x12
        )]))
    );
}

#[test]
fn assignment_lengths() {
    let a = MemoryAssignment::Array(vec![MemoryValue::Byte(1), MemoryValue::String("abc".to_string())]);
    assert_eq!(a.capped_len(), 4);
    assert_eq!(MemoryAssignment::Byte(7).capped_len(), 1);
    assert_eq!(MemoryAssignment::String(String::new()).capped_len(), 0);
}

#[test]
fn defaults_of_settings() {
    assert_eq!(default_timeout(), u16::MAX);
    assert!(!default_enable_breakpoint());
    assert_eq!(Address::default(), Address::Raw(0xFFFF));
    assert_eq!(Addresses::default(), Addresses::Single(Address::Raw(0xFFFF)));
}

#[test]
fn unwrap_entries() {
    let t = ConfigOther::Test(empty_test("a"));
    assert_eq!(t.unwrap_test(), &empty_test("a"));
    let m = ConfigOther::Memory(MemoryAssignment::Byte(3));
    assert_eq!(m.unwrap_memory(), &MemoryAssignment::Byte(3));
}

#[test]
fn unprocessed_file_splits_entries() {
    let u = UnprocessedConfigFile {
        default_config: ConfigMeta::default(),
        default_registers: Registers::default(),
        others: vec![
            NamedEntry { name: "0x40".to_string(), entry: ConfigOther::Memory(MemoryAssignment::Byte(1)) },
            NamedEntry { name: "t".to_string(), entry: ConfigOther::Test(empty_test("t")) },
            NamedEntry { name: "buf".to_string(), entry: ConfigOther::Memory(MemoryAssignment::Byte(2)) },
        ],
    };
    assert_eq!(u.tests(), vec![empty_test("t")]);
    assert_eq!(
        u.memory_assignments(),
        Ok(vec![
            entry(0x40, MemoryAssignment::Byte(1)),
            MemoryEntry { address: Address::Label("buf".to_string()), assignment: MemoryAssignment::Byte(2) },
        ])
    );
    let c = ConfigFile::try_from(u).unwrap();
    assert_eq!(c.tests, vec![empty_test("t")]);
    assert_eq!(c.default_memory.len(), 2);
}

#[test]
fn nested_array_entry_is_ambiguous() {
    let node = RawNode::Array(vec![RawNode::Array(vec![RawNode::Integer(1)])]);
    assert_eq!(
        classify(&"grid".to_string(), &node),
        Err(ConfigError::AmbiguousEntry("grid".to_string()))
    );
}

#[test]
fn result_table_rejects_nested_result() {
    let doc = vec![field(
        "t",
        table(vec![field("result", table(vec![field("result", table(vec![]))]))]),
    )];
    assert_eq!(
        resolve_document(&doc, &symbols(&[])),
        Err(ConfigError::AmbiguousEntry("result".to_string()))
    );
}

#[test]
fn settings_are_read() {
    let doc = vec![
        field("caller", RawNode::Integer(0x200)),
        field("enable_breakpoints", RawNode::Boolean(true)),
        field("timeout", RawNode::Integer(500)),
        field("stack", RawNode::Array(vec![RawNode::Integer(0), text("ab")])),
        field("pc", text("0x0010")),
    ];
    let c = load(&doc, &symbols(&[])).unwrap();
    assert!(c.default_config.enable_breakpoints);
    assert_eq!(c.default_config.timeout, 500);
    assert_eq!(
        c.default_config.stack,
        Some(MemoryAssignment::Array(vec![
            MemoryValue::Byte(0),
            MemoryValue::String("ab".to_string())
        ]))
    );
    assert_eq!(c.default_registers.pc, Some(Address::Raw(0x10)));
    assert!(c.tests.is_empty());
}
