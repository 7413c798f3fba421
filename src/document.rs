use vstd::prelude::*;
use crate::address::{all_raw, all_resolve, label_error, SymbolTable};
use crate::classify::{
    address_from, address_of, addresses_from, addresses_of, apply_register, assignment_from,
    assignment_of, byte_from, byte_of, classification, classify, field_key, key_kind,
    test_field_ok, test_fold, test_from_fields, EntryKind, FieldKey, RawField, RawNode,
};
use crate::config::{default_meta, ConfigMeta, ConfigOther, MetaModel, OtherModel, TestModel};
use crate::error::ConfigError;
use crate::pipeline::{
    keyed, memory_entries, names_parse, token_error, test_entries, ConfigFile, ConfigModel, NamedEntry,
    ResolvedConfig, UnprocessedConfigFile,
};
use crate::memory::AssignmentModel;
use crate::registers::{empty_registers, Registers, RegistersModel};
use crate::validate::{all_listed, is_valid};

verus! {

/// What a top-level key of a document stands for.
#[derive(PartialEq, Eq, Structural, Debug, Clone, Copy)]
pub enum DocKey {
    Caller,
    Breakpoints,
    Timeout,
    Crash,
    Exit,
    Stack,
    Register,
    Entry,
}

pub open spec fn doc_key(k: Seq<char>) -> DocKey {
    if k == "caller"@ {
        DocKey::Caller
    } else if k == "enable_breakpoints"@ {
        DocKey::Breakpoints
    } else if k == "timeout"@ {
        DocKey::Timeout
    } else if k == "crash"@ {
        DocKey::Crash
    } else if k == "exit"@ {
        DocKey::Exit
    } else if k == "stack"@ {
        DocKey::Stack
    } else if key_kind(k) is Byte || key_kind(k) is Word {
        DocKey::Register
    } else {
        DocKey::Entry
    }
}

fn same_text(k: &str, w: &str) -> (r: bool)
    ensures
        r == (k@ == w@),
{
    let n = k.unicode_len();
    if n != w.unicode_len() {
        return false;
    }
    let mut i: usize = 0;
    while i < n
        invariant
            i <= n,
            n == k@.len(),
            n == w@.len(),
            forall|j: int| 0 <= j < i ==> k@[j] == w@[j],
        decreases n - i,
    {
        if k.get_char(i) != w.get_char(i) {
            return false;
        }
        i = i + 1;
    }
    assert(k@ =~= w@);
    true
}

/// Reads a top-level key.
pub fn document_key(k: &str) -> (r: DocKey)
    ensures
        r == doc_key(k@),
{
    if same_text(k, "caller") {
        DocKey::Caller
    } else if same_text(k, "enable_breakpoints") {
        DocKey::Breakpoints
    } else if same_text(k, "timeout") {
        DocKey::Timeout
    } else if same_text(k, "crash") {
        DocKey::Crash
    } else if same_text(k, "exit") {
        DocKey::Exit
    } else if same_text(k, "stack") {
        DocKey::Stack
    } else {
        match field_key(k) {
            FieldKey::Byte(_) => DocKey::Register,
            FieldKey::Word(_) => DocKey::Register,
            _ => DocKey::Entry,
        }
    }
}

pub open spec fn timeout_of(n: RawNode) -> Option<u16> {
    match n {
        RawNode::Integer(v) => if 0 <= v <= 0xFFFF {
            Some(v as u16)
        } else {
            None
        },
        _ => None,
    }
}

/// A named entry, classified and read; `None` when either step fails.
pub open spec fn entry_of(name: Seq<char>, n: RawNode) -> Option<OtherModel> {
    match classification(name, n) {
        Ok(EntryKind::Memory) => match assignment_of(n) {
            Some(a) => Some(OtherModel::Memory(a)),
            None => None,
        },
        Ok(EntryKind::Test) => if forall|j: int|
            0 <= j < n->Table_0@.len() ==> test_field_ok(#[trigger] n->Table_0@[j]) {
            Some(OtherModel::Test(test_fold(name, n->Table_0@)))
        } else {
            None
        },
        Err(_) => None,
    }
}

/// A top-level field with a value of the shape that its key asks for.
pub open spec fn doc_field_ok(f: RawField) -> bool {
    match doc_key(f.key@) {
        DocKey::Caller => address_of(f.value) is Some,
        DocKey::Breakpoints => f.value is Boolean,
        DocKey::Timeout => timeout_of(f.value) is Some,
        DocKey::Crash => addresses_of(f.value) is Some,
        DocKey::Exit => addresses_of(f.value) is Some,
        DocKey::Stack => assignment_of(f.value) is Some,
        DocKey::Register => match key_kind(f.key@) {
            FieldKey::Byte(_) => byte_of(f.value) is Some,
            _ => address_of(f.value) is Some,
        },
        DocKey::Entry => entry_of(f.key@, f.value) is Some,
    }
}

/// The error that a bad field gives: where the field is an entry that the
/// classifier rejects, the classifier's ambiguity error.
pub open spec fn field_error(f: RawField, e: ConfigError) -> bool {
    &&& !doc_field_ok(f)
    &&& (doc_key(f.key@) is Entry && classification(f.key@, f.value) is Err) ==> (e matches ConfigError::AmbiguousEntry(s)
        && s@ == classification(f.key@, f.value)->Err_0)
}

/// `e` is the error of the first bad field of the document.
pub open spec fn first_field_error(doc: Seq<RawField>, e: ConfigError) -> bool {
    exists|i: int|
        0 <= i < doc.len() && (forall|j: int| 0 <= j < i ==> doc_field_ok(#[trigger] doc[j]))
            && field_error(#[trigger] doc[i], e)
}

proof fn lemma_first_error(doc: Seq<RawField>, i: int, e: ConfigError)
    requires
        0 <= i < doc.len(),
        forall|j: int| 0 <= j < i ==> doc_field_ok(#[trigger] doc[j]),
        field_error(doc[i], e),
    ensures
        first_field_error(doc, e),
{
}

/// The mathematical value of an [`UnprocessedConfigFile`].
pub ghost struct DocModel {
    pub meta: MetaModel,
    pub registers: RegistersModel,
    pub entries: Seq<(Seq<char>, OtherModel)>,
}

pub open spec fn entry_models(s: Seq<NamedEntry>) -> Seq<(Seq<char>, OtherModel)> {
    s.map_values(|e: NamedEntry| (e.name@, e.entry@))
}

impl View for UnprocessedConfigFile {
    type V = DocModel;

    open spec fn view(&self) -> DocModel {
        DocModel {
            meta: self.default_config@,
            registers: self.default_registers@,
            entries: entry_models(self.others@),
        }
    }
}

/// The configuration that a document describes, field by field; settings
/// that the document leaves out keep their defaults.
pub open spec fn doc_fold(g: Seq<RawField>) -> DocModel
    decreases g.len(),
{
    if g.len() == 0 {
        DocModel { meta: default_meta(), registers: empty_registers(), entries: Seq::empty() }
    } else {
        let d = doc_fold(g.drop_last());
        let f = g.last();
        let m = d.meta;
        match doc_key(f.key@) {
            DocKey::Caller => DocModel {
                meta: MetaModel { caller: address_of(f.value)->Some_0, ..m },
                ..d
            },
            DocKey::Breakpoints => DocModel {
                meta: MetaModel { enable_breakpoints: f.value->Boolean_0, ..m },
                ..d
            },
            DocKey::Timeout => DocModel {
                meta: MetaModel { timeout: timeout_of(f.value)->Some_0, ..m },
                ..d
            },
            DocKey::Crash => DocModel {
                meta: MetaModel { crash: addresses_of(f.value)->Some_0, ..m },
                ..d
            },
            DocKey::Exit => DocModel {
                meta: MetaModel { exit: addresses_of(f.value)->Some_0, ..m },
                ..d
            },
            DocKey::Stack => DocModel {
                meta: MetaModel { stack: Some(assignment_of(f.value)->Some_0), ..m },
                ..d
            },
            DocKey::Register => DocModel {
                registers: apply_register(d.registers, key_kind(f.key@), f.value),
                ..d
            },
            DocKey::Entry => DocModel {
                entries: d.entries.push((f.key@, entry_of(f.key@, f.value)->Some_0)),
                ..d
            },
        }
    }
}

/// Classifies and reads one named entry.
pub fn read_entry(name: &String, node: &RawNode) -> (r: Result<ConfigOther, ConfigError>)
    ensures
        r is Ok == entry_of(name@, *node) is Some,
        r matches Ok(x) ==> Some(x@) == entry_of(name@, *node),
        classification(name@, *node) matches Err(k) ==> r matches Err(
            ConfigError::AmbiguousEntry(s),
        ) && s@ == k,
{
    match classify(name, node) {
        Ok(EntryKind::Memory) => match assignment_from(node, name) {
            Ok(a) => Ok(ConfigOther::Memory(a)),
            Err(e) => Err(e),
        },
        Ok(EntryKind::Test) => match node {
            RawNode::Table(g) => match test_from_fields(name, g) {
                Ok(t) => Ok(ConfigOther::Test(t)),
                Err(e) => Err(e),
            },
            _ => Err(ConfigError::ShapeMismatch(name.clone())),
        },
        Err(e) => Err(e),
    }
}

impl UnprocessedConfigFile {
    /// Reads a parsed document: settings, default registers, and every other
    /// key as a named entry, classified.
    pub fn from_document(doc: &Vec<RawField>) -> (r: Result<UnprocessedConfigFile, ConfigError>)
        ensures
            r is Ok == forall|j: int| 0 <= j < doc@.len() ==> doc_field_ok(#[trigger] doc@[j]),
            r matches Ok(u) ==> u@ == doc_fold(doc@),
            r matches Err(e) ==> first_field_error(doc@, e),
    {
        let mut meta = ConfigMeta::default();
        let mut regs = Registers::default();
        let mut others: Vec<NamedEntry> = Vec::new();
        let mut i: usize = 0;
        assert(entry_models(others@) =~= Seq::empty());
        while i < doc.len()
            invariant
                i <= doc@.len(),
                forall|j: int| 0 <= j < i ==> doc_field_ok(#[trigger] doc@[j]),
                meta@ == doc_fold(doc@.take(i as int)).meta,
                regs@ == doc_fold(doc@.take(i as int)).registers,
                entry_models(others@) == doc_fold(doc@.take(i as int)).entries,
            decreases doc@.len() - i,
        {
            assert(doc@.take(i + 1).drop_last() =~= doc@.take(i as int));
            assert(doc@.take(i + 1).last() == doc@[i as int]);
            let f = &doc[i];
            match document_key(f.key.as_str()) {
                DocKey::Caller => match address_from(&f.value, &f.key) {
                    Ok(a) => meta.caller = a,
                    Err(e) => {
                        proof {
                            lemma_first_error(doc@, i as int, e);
                        }
                        return Err(e);
                    },
                },
                DocKey::Breakpoints => match &f.value {
                    RawNode::Boolean(b) => meta.enable_breakpoints = *b,
                    _ => {
                        let e = ConfigError::ShapeMismatch(f.key.clone());
                        proof {
                            lemma_first_error(doc@, i as int, e);
                        }
                        return Err(e);
                    },
                },
                DocKey::Timeout => match &f.value {
                    RawNode::Integer(v) => {
                        if 0 <= *v && *v <= 0xFFFF {
                            meta.timeout = *v as u16;
                        } else {
                            let e = ConfigError::ShapeMismatch(f.key.clone());
                            proof {
                                lemma_first_error(doc@, i as int, e);
                            }
                            return Err(e);
                        }
                    },
                    _ => {
                        let e = ConfigError::ShapeMismatch(f.key.clone());
                        proof {
                            lemma_first_error(doc@, i as int, e);
                        }
                        return Err(e);
                    },
                },
                DocKey::Crash => match addresses_from(&f.value, &f.key) {
                    Ok(a) => meta.crash = a,
                    Err(e) => {
                        proof {
                            lemma_first_error(doc@, i as int, e);
                        }
                        return Err(e);
                    },
                },
                DocKey::Exit => match addresses_from(&f.value, &f.key) {
                    Ok(a) => meta.exit = a,
                    Err(e) => {
                        proof {
                            lemma_first_error(doc@, i as int, e);
                        }
                        return Err(e);
                    },
                },
                DocKey::Stack => match assignment_from(&f.value, &f.key) {
                    Ok(a) => meta.stack = Some(a),
                    Err(e) => {
                        proof {
                            lemma_first_error(doc@, i as int, e);
                        }
                        return Err(e);
                    },
                },
                DocKey::Register => match field_key(f.key.as_str()) {
                    FieldKey::Byte(k) => match byte_from(&f.value, &f.key) {
                        Ok(b) => regs.set_byte(k, b),
                        Err(e) => {
                        proof {
                            lemma_first_error(doc@, i as int, e);
                        }
                        return Err(e);
                    },
                    },
                    FieldKey::Word(k) => match address_from(&f.value, &f.key) {
                        Ok(a) => regs.set_word(k, a),
                        Err(e) => {
                        proof {
                            lemma_first_error(doc@, i as int, e);
                        }
                        return Err(e);
                    },
                    },
                    _ => {
                        let e = ConfigError::ShapeMismatch(f.key.clone());
                        proof {
                            lemma_first_error(doc@, i as int, e);
                        }
                        return Err(e);
                    },
                },
                DocKey::Entry => match read_entry(&f.key, &f.value) {
                    Ok(x) => {
                        let ghost prev = others@;
                        let e = NamedEntry { name: f.key.clone(), entry: x };
                        others.push(e);
                        assert(entry_models(others@) =~= entry_models(prev).push(
                            (e.name@, e.entry@),
                        ));
                    },
                    Err(e) => {
                        proof {
                            lemma_first_error(doc@, i as int, e);
                        }
                        return Err(e);
                    },
                },
            }
            i = i + 1;
        }
        assert(doc@.take(doc@.len() as int) =~= doc@);
        Ok(UnprocessedConfigFile { default_config: meta, default_registers: regs, others })
    }
}

/// The tests among modelled entries, in order.
pub open spec fn model_tests(s: Seq<(Seq<char>, OtherModel)>) -> Seq<TestModel>
    decreases s.len(),
{
    if s.len() == 0 {
        Seq::empty()
    } else {
        match s.last().1 {
            OtherModel::Test(t) => model_tests(s.drop_last()).push(t),
            OtherModel::Memory(_) => model_tests(s.drop_last()),
        }
    }
}

/// The memory entries among modelled entries, in order.
pub open spec fn model_memory(s: Seq<(Seq<char>, OtherModel)>) -> Seq<(Seq<char>, AssignmentModel)>
    decreases s.len(),
{
    if s.len() == 0 {
        Seq::empty()
    } else {
        match s.last().1 {
            OtherModel::Memory(m) => model_memory(s.drop_last()).push((s.last().0, m)),
            OtherModel::Test(_) => model_memory(s.drop_last()),
        }
    }
}

proof fn lemma_entry_models(s: Seq<NamedEntry>)
    ensures
        test_entries(s) == model_tests(entry_models(s)),
        memory_entries(s) == model_memory(entry_models(s)),
    decreases s.len(),
{
    if s.len() > 0 {
        lemma_entry_models(s.drop_last());
        assert(entry_models(s.drop_last()) =~= entry_models(s).drop_last());
    }
}

/// The configuration that a read document stands for, before merging.
pub open spec fn config_of(d: DocModel) -> ConfigModel {
    ConfigModel {
        meta: d.meta,
        registers: d.registers,
        memory: keyed(model_memory(d.entries)),
        tests: model_tests(d.entries),
    }
}

/// Every field of the document is well formed and every memory entry's name
/// reads as an address.
pub open spec fn document_ok(doc: Seq<RawField>) -> bool {
    &&& forall|j: int| 0 <= j < doc.len() ==> doc_field_ok(#[trigger] doc[j])
    &&& names_parse(model_memory(doc_fold(doc).entries))
}

/// The whole resolution: reads and classifies the document, merges each
/// test with the defaults and resolves every label against the table.
pub fn resolve_document(doc: &Vec<RawField>, table: &SymbolTable) -> (r: Result<
    ResolvedConfig,
    ConfigError,
>)
    ensures
        r is Ok == (document_ok(doc@) && all_resolve(
            config_of(doc_fold(doc@)).merged().addresses(),
            table.symbols@,
        )),
        r matches Ok(c) ==> c@ == config_of(doc_fold(doc@)).merged().resolved(table.symbols@),
        r matches Ok(c) ==> all_raw(c@.addresses()),
        !(forall|j: int| 0 <= j < doc@.len() ==> doc_field_ok(#[trigger] doc@[j])) ==> (r matches Err(
            e,
        ) && first_field_error(doc@, e)),
        (forall|j: int| 0 <= j < doc@.len() ==> doc_field_ok(#[trigger] doc@[j])) && !names_parse(
            model_memory(doc_fold(doc@).entries),
        ) ==> (r matches Err(e) && token_error(e, model_memory(doc_fold(doc@).entries))),
        document_ok(doc@) ==> (r matches Err(e) ==> label_error(
            e,
            config_of(doc_fold(doc@)).merged().addresses(),
            table.symbols@,
        )),
{
    let u = match UnprocessedConfigFile::from_document(doc) {
        Ok(u) => u,
        Err(e) => return Err(e),
    };
    proof {
        lemma_entry_models(u.others@);
    }
    let c = match ConfigFile::try_from(u) {
        Ok(c) => c,
        Err(e) => return Err(e),
    };
    c.resolve(table)
}

/// Resolves the document, then checks the result's invariants.
pub fn load(doc: &Vec<RawField>, table: &SymbolTable) -> (r: Result<ResolvedConfig, ConfigError>)
    ensures
        r matches Ok(c) ==> c@ == config_of(doc_fold(doc@)).merged().resolved(table.symbols@)
            && all_raw(c@.addresses()) && is_valid(c@),
        r is Ok == (document_ok(doc@) && all_resolve(
            config_of(doc_fold(doc@)).merged().addresses(),
            table.symbols@,
        ) && is_valid(config_of(doc_fold(doc@)).merged().resolved(table.symbols@))),
        !(forall|j: int| 0 <= j < doc@.len() ==> doc_field_ok(#[trigger] doc@[j])) ==> (r matches Err(
            e,
        ) && first_field_error(doc@, e)),
        document_ok(doc@) && all_resolve(
            config_of(doc_fold(doc@)).merged().addresses(),
            table.symbols@,
        ) ==> (r matches Err(ConfigError::ValidationFailure(v)) ==> all_listed(
            v@,
            config_of(doc_fold(doc@)).merged().resolved(table.symbols@),
        )),
{
    let c = match resolve_document(doc, table) {
        Ok(c) => c,
        Err(e) => return Err(e),
    };
    match c.validate() {
        Ok(()) => Ok(c),
        Err(e) => Err(e),
    }
}

} // verus!
