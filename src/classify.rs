use vstd::prelude::*;
use crate::address::{parse_token, Address, AddressModel, Addresses, AddressesModel, views};
use crate::config::{ConfigResult, ConfigTest, ResultModel, TestModel};
use crate::error::ConfigError;
use crate::memory::{
    entry_views, value_views, AssignmentModel, MemoryAssignment, MemoryEntry, MemoryValue,
    ValueModel,
};
use crate::registers::{empty_registers, Registers, RegistersModel};

verus! {

/// A node of the parsed document: a scalar, a sequence or a table.
#[derive(Debug, PartialEq)]
pub enum RawNode {
    Integer(i64),
    Text(String),
    Boolean(bool),
    Array(Vec<RawNode>),
    Table(Vec<RawField>),
}

/// One key of a table with its value.
#[derive(Debug, PartialEq)]
pub struct RawField {
    pub key: String,
    pub value: RawNode,
}

/// What a key of a test table stands for.
#[derive(PartialEq, Eq, Structural, Debug, Clone, Copy)]
pub enum FieldKey {
    /// An 8-bit register: a, b, c, d, e, h, l in that order.
    Byte(u8),
    /// An address register: bc, de, hl, pc, sp in that order.
    Word(u8),
    /// The expected outcome.
    Result,
    /// A numeric memory key.
    Memory(u16),
    Unknown,
}

/// The shape an entry is classified as.
#[derive(PartialEq, Eq, Structural, Debug, Clone, Copy)]
pub enum EntryKind {
    Memory,
    Test,
}

pub open spec fn key_kind(k: Seq<char>) -> FieldKey {
    if k == seq!['a'] {
        FieldKey::Byte(0)
    } else if k == seq!['b'] {
        FieldKey::Byte(1)
    } else if k == seq!['c'] {
        FieldKey::Byte(2)
    } else if k == seq!['d'] {
        FieldKey::Byte(3)
    } else if k == seq!['e'] {
        FieldKey::Byte(4)
    } else if k == seq!['h'] {
        FieldKey::Byte(5)
    } else if k == seq!['l'] {
        FieldKey::Byte(6)
    } else if k == seq!['b', 'c'] {
        FieldKey::Word(0)
    } else if k == seq!['d', 'e'] {
        FieldKey::Word(1)
    } else if k == seq!['h', 'l'] {
        FieldKey::Word(2)
    } else if k == seq!['p', 'c'] {
        FieldKey::Word(3)
    } else if k == seq!['s', 'p'] {
        FieldKey::Word(4)
    } else if k == seq!['r', 'e', 's', 'u', 'l', 't'] {
        FieldKey::Result
    } else {
        match parse_token(k) {
            Some(AddressModel::Raw(v)) => FieldKey::Memory(v),
            _ => FieldKey::Unknown,
        }
    }
}

/// Reads the key of a test table.
pub fn field_key(k: &str) -> (r: FieldKey)
    ensures
        r == key_kind(k@),
{
    let n = k.unicode_len();
    if n == 1 {
        let c = k.get_char(0);
        assert(k@ =~= seq![c]);
        if c == 'a' {
            return FieldKey::Byte(0);
        } else if c == 'b' {
            return FieldKey::Byte(1);
        } else if c == 'c' {
            return FieldKey::Byte(2);
        } else if c == 'd' {
            return FieldKey::Byte(3);
        } else if c == 'e' {
            return FieldKey::Byte(4);
        } else if c == 'h' {
            return FieldKey::Byte(5);
        } else if c == 'l' {
            return FieldKey::Byte(6);
        }
    } else if n == 2 {
        let c0 = k.get_char(0);
        let c1 = k.get_char(1);
        assert(k@ =~= seq![c0, c1]);
        if c0 == 'b' && c1 == 'c' {
            return FieldKey::Word(0);
        } else if c0 == 'd' && c1 == 'e' {
            return FieldKey::Word(1);
        } else if c0 == 'h' && c1 == 'l' {
            return FieldKey::Word(2);
        } else if c0 == 'p' && c1 == 'c' {
            return FieldKey::Word(3);
        } else if c0 == 's' && c1 == 'p' {
            return FieldKey::Word(4);
        }
    } else if n == 6 {
        let c0 = k.get_char(0);
        let c1 = k.get_char(1);
        let c2 = k.get_char(2);
        let c3 = k.get_char(3);
        let c4 = k.get_char(4);
        let c5 = k.get_char(5);
        assert(k@ =~= seq![c0, c1, c2, c3, c4, c5]);
        if c0 == 'r' && c1 == 'e' && c2 == 's' && c3 == 'u' && c4 == 'l' && c5 == 't' {
            return FieldKey::Result;
        }
    }
    match Address::from_raw_token(k) {
        Ok(Address::Raw(v)) => FieldKey::Memory(v),
        _ => FieldKey::Unknown,
    }
}

pub open spec fn is_scalar(n: RawNode) -> bool {
    n is Integer || n is Text
}

/// A scalar, or a sequence of scalars.
pub open spec fn is_memory_shape(n: RawNode) -> bool {
    match n {
        RawNode::Integer(_) => true,
        RawNode::Text(_) => true,
        RawNode::Array(v) => forall|i: int| 0 <= i < v@.len() ==> is_scalar(#[trigger] v@[i]),
        _ => false,
    }
}

/// Whether a key may stand in a test table (`in_result`: in its result table).
pub open spec fn recognized(k: Seq<char>, in_result: bool) -> bool {
    match key_kind(k) {
        FieldKey::Unknown => false,
        FieldKey::Result => !in_result,
        _ => true,
    }
}

/// The key of the first field that a test table may not hold.
pub open spec fn first_unrecognized(f: Seq<RawField>, in_result: bool) -> Option<Seq<char>>
    decreases f.len(),
{
    if f.len() == 0 {
        None
    } else if !recognized(f[0].key@, in_result) {
        Some(f[0].key@)
    } else {
        first_unrecognized(f.skip(1), in_result)
    }
}

/// How an entry is classified: rule one, a scalar or sequence of scalars is
/// memory; rule two, a table whose every key is a register, `result` or a
/// numeric memory key is a test; else the entry is ambiguous, and the error
/// names the first offending key, or the entry itself when it is no table.
pub open spec fn classification(name: Seq<char>, n: RawNode) -> Result<EntryKind, Seq<char>> {
    if is_memory_shape(n) {
        Ok(EntryKind::Memory)
    } else {
        match n {
            RawNode::Table(f) => match first_unrecognized(f@, false) {
                None => Ok(EntryKind::Test),
                Some(k) => Err(k),
            },
            _ => Err(name),
        }
    }
}

fn scalar(n: &RawNode) -> (r: bool)
    ensures
        r == is_scalar(*n),
{
    match n {
        RawNode::Integer(_) => true,
        RawNode::Text(_) => true,
        _ => false,
    }
}

fn is_recognized(k: &String, in_result: bool) -> (r: bool)
    ensures
        r == recognized(k@, in_result),
{
    match field_key(k.as_str()) {
        FieldKey::Unknown => false,
        FieldKey::Result => !in_result,
        _ => true,
    }
}

fn find_unrecognized(f: &Vec<RawField>, in_result: bool) -> (r: Option<&String>)
    ensures
        match first_unrecognized(f@, in_result) {
            None => r is None,
            Some(k) => r matches Some(s) && s@ == k,
        },
{
    let mut i: usize = 0;
    assert(f@.skip(0) =~= f@);
    while i < f.len()
        invariant
            i <= f@.len(),
            first_unrecognized(f@, in_result) == first_unrecognized(f@.skip(i as int), in_result),
        decreases f@.len() - i,
    {
        assert(f@.skip(i as int)[0] == f@[i as int]);
        assert(f@.skip(i as int).skip(1) =~= f@.skip(i + 1));
        if !is_recognized(&f[i].key, in_result) {
            return Some(&f[i].key);
        }
        i = i + 1;
    }
    None
}

/// Classifies a named entry by its shape alone.
pub fn classify(name: &String, node: &RawNode) -> (r: Result<EntryKind, ConfigError>)
    ensures
        match classification(name@, *node) {
            Ok(k) => r == Ok::<EntryKind, ConfigError>(k),
            Err(key) => r matches Err(ConfigError::AmbiguousEntry(s)) && s@ == key,
        },
{
    match node {
        RawNode::Integer(_) => Ok(EntryKind::Memory),
        RawNode::Text(_) => Ok(EntryKind::Memory),
        RawNode::Array(v) => {
            let mut i: usize = 0;
            while i < v.len()
                invariant
                    i <= v@.len(),
                    *node == RawNode::Array(*v),
                    forall|j: int| 0 <= j < i ==> is_scalar(#[trigger] v@[j]),
                decreases v@.len() - i,
            {
                if !scalar(&v[i]) {
                    assert(!is_scalar(v@[i as int]));

                    assert(!is_memory_shape(*node));
                    return Err(ConfigError::AmbiguousEntry(name.clone()));
                }
                i = i + 1;
            }
            Ok(EntryKind::Memory)
        },
        RawNode::Table(f) => match find_unrecognized(f, false) {
            None => Ok(EntryKind::Test),
            Some(k) => Err(ConfigError::AmbiguousEntry(k.clone())),
        },
        RawNode::Boolean(_) => Err(ConfigError::AmbiguousEntry(name.clone())),
    }
}

/// Classifying is a function of the entry alone: the same entry always gets
/// the same shape, or the same error.
pub proof fn lemma_classification_deterministic(
    name1: Seq<char>,
    node1: RawNode,
    name2: Seq<char>,
    node2: RawNode,
)
    requires
        name1 == name2,
        node1 == node2,
    ensures
        classification(name1, node1) == classification(name2, node2),
{
}

pub open spec fn byte_of(n: RawNode) -> Option<u8> {
    match n {
        RawNode::Integer(v) => if 0 <= v <= 255 {
            Some(v as u8)
        } else {
            None
        },
        _ => None,
    }
}

/// An address field: an integer in `0..=0xFFFF`, or a token.
pub open spec fn address_of(n: RawNode) -> Option<AddressModel> {
    match n {
        RawNode::Integer(v) => if 0 <= v <= 0xFFFF {
            Some(AddressModel::Raw(v as u16))
        } else {
            None
        },
        RawNode::Text(s) => parse_token(s@),
        _ => None,
    }
}

/// A checkpoint field: one address, or a sequence of them.
pub open spec fn addresses_of(n: RawNode) -> Option<AddressesModel> {
    match n {
        RawNode::Array(v) => if forall|i: int| 0 <= i < v@.len() ==> (#[trigger] address_of(v@[i])) is Some {
            Some(AddressesModel::Multiple(v@.map_values(|x: RawNode| address_of(x)->Some_0)))
        } else {
            None
        },
        _ => match address_of(n) {
            Some(a) => Some(AddressesModel::Single(a)),
            None => None,
        },
    }
}

pub open spec fn value_of(n: RawNode) -> Option<ValueModel> {
    match n {
        RawNode::Integer(v) => if 0 <= v <= 255 {
            Some(ValueModel::Byte(v as u8))
        } else {
            None
        },
        RawNode::Text(s) => Some(ValueModel::Text(s@)),
        _ => None,
    }
}

/// A memory assignment: a byte, a string, or a sequence of bytes and strings.
pub open spec fn assignment_of(n: RawNode) -> Option<AssignmentModel> {
    match n {
        RawNode::Integer(v) => if 0 <= v <= 255 {
            Some(AssignmentModel::Byte(v as u8))
        } else {
            None
        },
        RawNode::Text(s) => Some(AssignmentModel::Text(s@)),
        RawNode::Array(v) => if forall|i: int| 0 <= i < v@.len() ==> (#[trigger] value_of(v@[i])) is Some {
            Some(AssignmentModel::Array(v@.map_values(|x: RawNode| value_of(x)->Some_0)))
        } else {
            None
        },
        _ => None,
    }
}

pub fn byte_from(n: &RawNode, key: &String) -> (r: Result<u8, ConfigError>)
    ensures
        match byte_of(*n) {
            Some(b) => r == Ok::<u8, ConfigError>(b),
            None => r matches Err(ConfigError::ShapeMismatch(k)) && k@ == key@,
        },
{
    match n {
        RawNode::Integer(v) => if 0 <= *v && *v <= 255 {
            return Ok(*v as u8);
        },
        _ => {},
    }
    Err(ConfigError::ShapeMismatch(key.clone()))
}

pub fn address_from(n: &RawNode, key: &String) -> (r: Result<Address, ConfigError>)
    ensures
        match address_of(*n) {
            Some(a) => r matches Ok(x) && x@ == a,
            None => r is Err,
        },
{
    match n {
        RawNode::Integer(v) => if 0 <= *v && *v <= 0xFFFF {
            Ok(Address::Raw(*v as u16))
        } else {
            Err(ConfigError::ShapeMismatch(key.clone()))
        },
        RawNode::Text(s) => Address::from_raw_token(s.as_str()),
        _ => Err(ConfigError::ShapeMismatch(key.clone())),
    }
}

pub fn addresses_from(n: &RawNode, key: &String) -> (r: Result<Addresses, ConfigError>)
    ensures
        match addresses_of(*n) {
            Some(a) => r matches Ok(x) && x@ == a,
            None => r is Err,
        },
{
    match n {
        RawNode::Array(v) => {
            let mut out: Vec<Address> = Vec::new();
            let mut i: usize = 0;
            while i < v.len()
                invariant
                    i <= v@.len(),
                    *n == RawNode::Array(*v),
                    out@.len() == i,
                    forall|j: int| 0 <= j < i ==> (#[trigger] address_of(v@[j])) is Some,
                    forall|j: int| 0 <= j < i ==> Some((#[trigger] out@[j])@) == address_of(v@[j]),
                decreases v@.len() - i,
            {
                match address_from(&v[i], key) {
                    Ok(a) => out.push(a),
                    Err(e) => return Err(e),
                }
                i = i + 1;
            }
            assert(views(out@) =~= v@.map_values(|x: RawNode| address_of(x)->Some_0));
            Ok(Addresses::Multiple(out))
        },
        _ => match address_from(n, key) {
            Ok(a) => Ok(Addresses::Single(a)),
            Err(e) => Err(e),
        },
    }
}

pub fn assignment_from(n: &RawNode, key: &String) -> (r: Result<MemoryAssignment, ConfigError>)
    ensures
        match assignment_of(*n) {
            Some(a) => r matches Ok(x) && x@ == a,
            None => r matches Err(ConfigError::ShapeMismatch(k)) && k@ == key@,
        },
{
    match n {
        RawNode::Integer(v) => if 0 <= *v && *v <= 255 {
            Ok(MemoryAssignment::Byte(*v as u8))
        } else {
            Err(ConfigError::ShapeMismatch(key.clone()))
        },
        RawNode::Text(s) => Ok(MemoryAssignment::String(s.clone())),
        RawNode::Array(v) => {
            let mut out: Vec<MemoryValue> = Vec::new();
            let mut i: usize = 0;
            while i < v.len()
                invariant
                    i <= v@.len(),
                    *n == RawNode::Array(*v),
                    out@.len() == i,
                    forall|j: int| 0 <= j < i ==> (#[trigger] value_of(v@[j])) is Some,
                    forall|j: int| 0 <= j < i ==> Some((#[trigger] out@[j])@) == value_of(v@[j]),
                decreases v@.len() - i,
            {
                match &v[i] {
                    RawNode::Integer(b) => {
                        if 0 <= *b && *b <= 255 {
                            out.push(MemoryValue::Byte(*b as u8));
                        } else {
                            assert(value_of(v@[i as int]) is None);
                            return Err(ConfigError::ShapeMismatch(key.clone()));
                        }
                    },
                    RawNode::Text(s) => out.push(MemoryValue::String(s.clone())),
                    _ => {
                        assert(value_of(v@[i as int]) is None);
                        return Err(ConfigError::ShapeMismatch(key.clone()));
                    },
                }
                i = i + 1;
            }
            assert(value_views(out@) =~= v@.map_values(|x: RawNode| value_of(x)->Some_0));
            Ok(MemoryAssignment::Array(out))
        },
        _ => Err(ConfigError::ShapeMismatch(key.clone())),
    }
}

/// The registers with one 8-bit register set.
pub open spec fn with_byte(r: RegistersModel, i: u8, b: u8) -> RegistersModel {
    if i == 0 {
        RegistersModel { a: Some(b), ..r }
    } else if i == 1 {
        RegistersModel { b: Some(b), ..r }
    } else if i == 2 {
        RegistersModel { c: Some(b), ..r }
    } else if i == 3 {
        RegistersModel { d: Some(b), ..r }
    } else if i == 4 {
        RegistersModel { e: Some(b), ..r }
    } else if i == 5 {
        RegistersModel { h: Some(b), ..r }
    } else if i == 6 {
        RegistersModel { l: Some(b), ..r }
    } else {
        r
    }
}

/// The registers with one address register set.
pub open spec fn with_word(r: RegistersModel, i: u8, a: AddressModel) -> RegistersModel {
    if i == 0 {
        RegistersModel { bc: Some(a), ..r }
    } else if i == 1 {
        RegistersModel { de: Some(a), ..r }
    } else if i == 2 {
        RegistersModel { hl: Some(a), ..r }
    } else if i == 3 {
        RegistersModel { pc: Some(a), ..r }
    } else if i == 4 {
        RegistersModel { sp: Some(a), ..r }
    } else {
        r
    }
}

impl Registers {
    pub fn set_byte(&mut self, i: u8, b: u8)
        ensures
            final(self)@ == with_byte(old(self)@, i, b),
    {
        if i == 0 {
            self.a = Some(b);
        } else if i == 1 {
            self.b = Some(b);
        } else if i == 2 {
            self.c = Some(b);
        } else if i == 3 {
            self.d = Some(b);
        } else if i == 4 {
            self.e = Some(b);
        } else if i == 5 {
            self.h = Some(b);
        } else if i == 6 {
            self.l = Some(b);
        }
    }

    pub fn set_word(&mut self, i: u8, a: Address)
        ensures
            final(self)@ == with_word(old(self)@, i, a@),
    {
        if i == 0 {
            self.bc = Some(a);
        } else if i == 1 {
            self.de = Some(a);
        } else if i == 2 {
            self.hl = Some(a);
        } else if i == 3 {
            self.pc = Some(a);
        } else if i == 4 {
            self.sp = Some(a);
        }
    }
}

/// A register field applied to the registers.
pub open spec fn apply_register(r: RegistersModel, k: FieldKey, v: RawNode) -> RegistersModel {
    match k {
        FieldKey::Byte(i) => with_byte(r, i, byte_of(v)->Some_0),
        FieldKey::Word(i) => with_word(r, i, address_of(v)->Some_0),
        _ => r,
    }
}

/// A field of a result table: a register or a numeric memory key, with a
/// value of the matching shape.
pub open spec fn result_field_ok(f: RawField) -> bool {
    match key_kind(f.key@) {
        FieldKey::Byte(_) => byte_of(f.value) is Some,
        FieldKey::Word(_) => address_of(f.value) is Some,
        FieldKey::Memory(_) => assignment_of(f.value) is Some,
        _ => false,
    }
}

/// A field of a test table: as in a result table, or `result` with a table
/// of result fields.
pub open spec fn test_field_ok(f: RawField) -> bool {
    match key_kind(f.key@) {
        FieldKey::Result => match f.value {
            RawNode::Table(g) => forall|j: int| 0 <= j < g@.len() ==> result_field_ok(#[trigger] g@[j]),
            _ => false,
        },
        _ => result_field_ok(f),
    }
}

/// The result that a table of result fields describes, field by field.
pub open spec fn result_fold(g: Seq<RawField>) -> ResultModel
    decreases g.len(),
{
    if g.len() == 0 {
        ResultModel { registers: empty_registers(), memory: Seq::empty() }
    } else {
        let m = result_fold(g.drop_last());
        let f = g.last();
        match key_kind(f.key@) {
            FieldKey::Memory(a) => ResultModel {
                memory: m.memory.push((AddressModel::Raw(a), assignment_of(f.value)->Some_0)),
                ..m
            },
            k => ResultModel { registers: apply_register(m.registers, k, f.value), ..m },
        }
    }
}

/// The test that a named table describes, field by field.
pub open spec fn test_fold(name: Seq<char>, g: Seq<RawField>) -> TestModel
    decreases g.len(),
{
    if g.len() == 0 {
        TestModel { name, registers: empty_registers(), memory: Seq::empty(), result: None }
    } else {
        let m = test_fold(name, g.drop_last());
        let f = g.last();
        match key_kind(f.key@) {
            FieldKey::Memory(a) => TestModel {
                memory: m.memory.push((AddressModel::Raw(a), assignment_of(f.value)->Some_0)),
                ..m
            },
            FieldKey::Result => TestModel {
                result: Some(result_fold(f.value->Table_0@)),
                ..m
            },
            k => TestModel { registers: apply_register(m.registers, k, f.value), ..m },
        }
    }
}

/// Reads a result table.
pub fn result_from_fields(g: &Vec<RawField>) -> (r: Result<ConfigResult, ConfigError>)
    ensures
        r is Ok == forall|j: int| 0 <= j < g@.len() ==> result_field_ok(#[trigger] g@[j]),
        r matches Ok(x) ==> x@ == result_fold(g@),
{
    let mut regs = Registers::default();
    let mut mem: Vec<MemoryEntry> = Vec::new();
    let mut i: usize = 0;
    assert(entry_views(mem@) =~= Seq::empty());
    while i < g.len()
        invariant
            i <= g@.len(),
            forall|j: int| 0 <= j < i ==> result_field_ok(#[trigger] g@[j]),
            regs@ == result_fold(g@.take(i as int)).registers,
            entry_views(mem@) == result_fold(g@.take(i as int)).memory,
        decreases g@.len() - i,
    {
        assert(g@.take(i + 1).drop_last() =~= g@.take(i as int));
        assert(g@.take(i + 1).last() == g@[i as int]);
        let f = &g[i];
        match field_key(f.key.as_str()) {
            FieldKey::Byte(k) => {
                let b = match byte_from(&f.value, &f.key) {
                    Ok(b) => b,
                    Err(e) => return Err(e),
                };
                regs.set_byte(k, b);
            },
            FieldKey::Word(k) => {
                let a = match address_from(&f.value, &f.key) {
                    Ok(a) => a,
                    Err(e) => return Err(e),
                };
                regs.set_word(k, a);
            },
            FieldKey::Memory(k) => {
                let a = match assignment_from(&f.value, &f.key) {
                    Ok(a) => a,
                    Err(e) => return Err(e),
                };
                let ghost prev = mem@;
                let e = MemoryEntry { address: Address::Raw(k), assignment: a };
                mem.push(e);
                assert(entry_views(mem@) =~= entry_views(prev).push(e@));
            },
            _ => return Err(ConfigError::AmbiguousEntry(f.key.clone())),
        }
        i = i + 1;
    }
    assert(g@.take(g@.len() as int) =~= g@);
    Ok(ConfigResult { resulting_registers: regs, resulting_memory: mem })
}

/// Reads a table classified as a test.
pub fn test_from_fields(name: &String, g: &Vec<RawField>) -> (r: Result<ConfigTest, ConfigError>)
    ensures
        r is Ok == forall|j: int| 0 <= j < g@.len() ==> test_field_ok(#[trigger] g@[j]),
        r matches Ok(x) ==> x@ == test_fold(name@, g@),
{
    let mut test = ConfigTest::named(name.clone());
    let mut i: usize = 0;
    while i < g.len()
        invariant
            i <= g@.len(),
            forall|j: int| 0 <= j < i ==> test_field_ok(#[trigger] g@[j]),
            test@ == test_fold(name@, g@.take(i as int)),
        decreases g@.len() - i,
    {
        assert(g@.take(i + 1).drop_last() =~= g@.take(i as int));
        assert(g@.take(i + 1).last() == g@[i as int]);
        let f = &g[i];
        match field_key(f.key.as_str()) {
            FieldKey::Byte(k) => {
                let b = match byte_from(&f.value, &f.key) {
                    Ok(b) => b,
                    Err(e) => return Err(e),
                };
                test.initial_registers.set_byte(k, b);
            },
            FieldKey::Word(k) => {
                let a = match address_from(&f.value, &f.key) {
                    Ok(a) => a,
                    Err(e) => return Err(e),
                };
                test.initial_registers.set_word(k, a);
            },
            FieldKey::Memory(k) => {
                let a = match assignment_from(&f.value, &f.key) {
                    Ok(a) => a,
                    Err(e) => return Err(e),
                };
                let ghost prev = test.initial_memory@;
                let e = MemoryEntry { address: Address::Raw(k), assignment: a };
                test.initial_memory.push(e);
                assert(entry_views(test.initial_memory@) =~= entry_views(prev).push(e@));
            },
            FieldKey::Result => match &f.value {
                RawNode::Table(h) => match result_from_fields(h) {
                    Ok(x) => {
                        test.result = Some(x);
                    },
                    Err(e) => return Err(e),
                },
                _ => return Err(ConfigError::ShapeMismatch(f.key.clone())),
            },
            FieldKey::Unknown => return Err(ConfigError::AmbiguousEntry(f.key.clone())),
        }
        i = i + 1;
    }
    assert(g@.take(g@.len() as int) =~= g@);
    Ok(test)
}

} // verus!
