use vstd::prelude::*;
use crate::address::{
    all_resolve, label_error, resolve_address, resolved, Address, AddressModel, Symbol, SymbolTable,
};
use crate::error::ConfigError;

verus! {

/// The mathematical value of a [`MemoryValue`].
pub ghost enum ValueModel {
    Byte(u8),
    Text(Seq<char>),
}

/// One byte, or a string laid out one byte per character.
#[derive(Debug, PartialEq)]
pub enum MemoryValue {
    Byte(u8),
    String(String),
}

impl View for MemoryValue {
    type V = ValueModel;

    open spec fn view(&self) -> ValueModel {
        match self {
            MemoryValue::Byte(b) => ValueModel::Byte(*b),
            MemoryValue::String(s) => ValueModel::Text(s@),
        }
    }
}

impl Clone for MemoryValue {
    fn clone(&self) -> (r: Self)
        ensures
            r@ == self@,
    {
        match self {
            MemoryValue::Byte(b) => MemoryValue::Byte(*b),
            MemoryValue::String(s) => MemoryValue::String(s.clone()),
        }
    }
}

/// The mathematical value of a [`MemoryAssignment`].
pub ghost enum AssignmentModel {
    Byte(u8),
    Text(Seq<char>),
    Array(Seq<ValueModel>),
}

/// The bytes placed from a base address upwards.
#[derive(Debug, PartialEq)]
pub enum MemoryAssignment {
    Byte(u8),
    String(String),
    Array(Vec<MemoryValue>),
}

pub open spec fn value_views(s: Seq<MemoryValue>) -> Seq<ValueModel> {
    s.map_values(|v: MemoryValue| v@)
}

impl View for MemoryAssignment {
    type V = AssignmentModel;

    open spec fn view(&self) -> AssignmentModel {
        match self {
            MemoryAssignment::Byte(b) => AssignmentModel::Byte(*b),
            MemoryAssignment::String(s) => AssignmentModel::Text(s@),
            MemoryAssignment::Array(v) => AssignmentModel::Array(value_views(v@)),
        }
    }
}

impl Clone for MemoryAssignment {
    fn clone(&self) -> (r: Self)
        ensures
            r@ == self@,
    {
        match self {
            MemoryAssignment::Byte(b) => MemoryAssignment::Byte(*b),
            MemoryAssignment::String(s) => MemoryAssignment::String(s.clone()),
            MemoryAssignment::Array(v) => {
                let mut out: Vec<MemoryValue> = Vec::new();
                let mut i: usize = 0;
                while i < v.len()
                    invariant
                        i <= v@.len(),
                        out@.len() == i,
                        forall|k: int| 0 <= k < i ==> (#[trigger] out@[k])@ == v@[k]@,
                    decreases v@.len() - i,
                {
                    out.push(v[i].clone());
                    i = i + 1;
                }
                assert(value_views(out@) =~= value_views(v@));
                MemoryAssignment::Array(out)
            },
        }
    }
}

pub open spec fn value_len(v: ValueModel) -> nat {
    match v {
        ValueModel::Byte(_) => 1,
        ValueModel::Text(s) => s.len(),
    }
}

pub open spec fn values_len(s: Seq<ValueModel>) -> nat
    decreases s.len(),
{
    if s.len() == 0 {
        0
    } else {
        values_len(s.drop_last()) + value_len(s.last())
    }
}

/// How many bytes an assignment places.
pub open spec fn assignment_len(a: AssignmentModel) -> nat {
    match a {
        AssignmentModel::Byte(_) => 1,
        AssignmentModel::Text(s) => s.len(),
        AssignmentModel::Array(s) => values_len(s),
    }
}

/// A count of bytes, capped just above the 16-bit address space.
pub open spec fn capped(n: nat) -> nat {
    if n > 0x10000 {
        0x10000
    } else {
        n
    }
}

impl MemoryValue {
    pub fn byte_len(&self) -> (r: usize)
        ensures
            r == value_len(self@),
    {
        match self {
            MemoryValue::Byte(_) => 1,
            MemoryValue::String(s) => s.as_str().unicode_len(),
        }
    }
}

impl MemoryAssignment {
    /// The number of bytes placed, capped at `0x10000`: no 16-bit range can
    /// tell a longer assignment apart.
    pub fn capped_len(&self) -> (r: u32)
        ensures
            r == capped(assignment_len(self@)),
    {
        match self {
            MemoryAssignment::Byte(_) => 1,
            MemoryAssignment::String(s) => {
                let n = s.as_str().unicode_len();
                if n > 0x10000 {
                    0x10000
                } else {
                    n as u32
                }
            },
            MemoryAssignment::Array(v) => {
                let ghost s = value_views(v@);
                let mut acc: u32 = 0;
                let mut i: usize = 0;
                while i < v.len()
                    invariant
                        i <= v@.len(),
                        s == value_views(v@),
                        acc == capped(values_len(s.take(i as int))),
                    decreases v@.len() - i,
                {
                    assert(s.take(i + 1).drop_last() =~= s.take(i as int));
                    let n = v[i].byte_len();
                    if n >= 0x10000 || acc as usize + n >= 0x10000 {
                        acc = 0x10000;
                    } else {
                        acc = acc + n as u32;
                    }
                    i = i + 1;
                }
                assert(s.take(v@.len() as int) =~= s);
                acc
            },
        }
    }
}

/// The assignment of one memory key.
#[derive(Debug, PartialEq)]
pub struct MemoryEntry {
    pub address: Address,
    pub assignment: MemoryAssignment,
}

impl View for MemoryEntry {
    type V = (AddressModel, AssignmentModel);

    open spec fn view(&self) -> (AddressModel, AssignmentModel) {
        (self.address@, self.assignment@)
    }
}

impl Clone for MemoryEntry {
    fn clone(&self) -> (r: Self)
        ensures
            r@ == self@,
    {
        MemoryEntry { address: self.address.clone(), assignment: self.assignment.clone() }
    }
}

pub open spec fn entry_views(s: Seq<MemoryEntry>) -> Seq<(AddressModel, AssignmentModel)> {
    s.map_values(|e: MemoryEntry| e@)
}

/// The keys of a memory map, in order.
pub open spec fn keys(m: Seq<(AddressModel, AssignmentModel)>) -> Seq<AddressModel> {
    m.map_values(|e: (AddressModel, AssignmentModel)| e.0)
}

pub open spec fn has_key(m: Seq<(AddressModel, AssignmentModel)>, k: AddressModel) -> bool {
    exists|i: int| 0 <= i < m.len() && m[i].0 == k
}

/// A memory map with every key resolved.
pub open spec fn resolve_keys(m: Seq<(AddressModel, AssignmentModel)>, t: Seq<Symbol>) -> Seq<
    (AddressModel, AssignmentModel),
> {
    m.map_values(|e: (AddressModel, AssignmentModel)| (resolved(e.0, t), e.1))
}

/// The entries of `d` whose key `l` does not assign, in order.
pub open spec fn unshadowed(
    d: Seq<(AddressModel, AssignmentModel)>,
    l: Seq<(AddressModel, AssignmentModel)>,
) -> Seq<(AddressModel, AssignmentModel)>
    decreases d.len(),
{
    if d.len() == 0 {
        d
    } else if has_key(l, d.last().0) {
        unshadowed(d.drop_last(), l)
    } else {
        unshadowed(d.drop_last(), l).push(d.last())
    }
}

/// The default map with the local assignments laid over it: the union of
/// both, where a local assignment replaces a default one of the same key.
pub open spec fn merged_memory(
    d: Seq<(AddressModel, AssignmentModel)>,
    l: Seq<(AddressModel, AssignmentModel)>,
) -> Seq<(AddressModel, AssignmentModel)> {
    unshadowed(d, l) + l
}

impl Address {
    pub fn same_as(&self, other: &Address) -> (r: bool)
        ensures
            r == (self@ == other@),
    {
        match (self, other) {
            (Address::Raw(a), Address::Raw(b)) => *a == *b,
            (Address::Label(a), Address::Label(b)) => *a == *b,
            _ => false,
        }
    }
}

fn assigns_key(m: &Vec<MemoryEntry>, k: &Address) -> (r: bool)
    ensures
        r == has_key(entry_views(m@), k@),
{
    let mut i: usize = 0;
    while i < m.len()
        invariant
            i <= m@.len(),
            forall|j: int| 0 <= j < i ==> (#[trigger] m@[j]).address@ != k@,
        decreases m@.len() - i,
    {
        if m[i].address.same_as(k) {
            assert(entry_views(m@)[i as int].0 == k@);
            return true;
        }
        i = i + 1;
    }
    assert forall|j: int| 0 <= j < m@.len() implies (#[trigger] entry_views(m@)[j]).0 != k@ by {
        assert(entry_views(m@)[j] == m@[j]@);
    }
    false
}

/// The effective memory of a test: defaults first, then local assignments,
/// a local key replacing the default assignment of that key.
pub fn merge_memory(defaults: &Vec<MemoryEntry>, local: &Vec<MemoryEntry>) -> (r: Vec<
    MemoryEntry,
>)
    ensures
        entry_views(r@) == merged_memory(entry_views(defaults@), entry_views(local@)),
{
    let ghost d = entry_views(defaults@);
    let ghost l = entry_views(local@);
    let mut out: Vec<MemoryEntry> = Vec::new();
    let mut i: usize = 0;
    while i < defaults.len()
        invariant
            i <= defaults@.len(),
            d == entry_views(defaults@),
            l == entry_views(local@),
            entry_views(out@) == unshadowed(d.take(i as int), l),
        decreases defaults@.len() - i,
    {
        assert(d.take(i + 1).drop_last() =~= d.take(i as int));
        assert(d.take(i + 1).last() == defaults@[i as int]@);
        if !assigns_key(local, &defaults[i].address) {
            let e = defaults[i].clone();
            out.push(e);
            assert(entry_views(out@) =~= unshadowed(d.take(i as int), l).push(defaults@[i as int]@));
        }
        i = i + 1;
    }
    assert(d.take(defaults@.len() as int) =~= d);
    let ghost base = out@;
    let mut j: usize = 0;
    while j < local.len()
        invariant
            j <= local@.len(),
            l == entry_views(local@),
            entry_views(base) == unshadowed(d, l),
            entry_views(out@) == unshadowed(d, l) + l.take(j as int),
        decreases local@.len() - j,
    {
        let e = local[j].clone();
        let ghost prev = out@;
        out.push(e);
        assert(entry_views(out@) =~= entry_views(prev).push(e@));
        assert(l.take(j + 1) =~= l.take(j as int).push(l[j as int]));
        assert(entry_views(out@) =~= unshadowed(d, l) + l.take(j + 1));
        j = j + 1;
    }
    assert(l.take(local@.len() as int) =~= l);
    out
}

/// Resolves every key of a memory map, stopping at the first unbound label.
pub fn resolve_memory(m: &Vec<MemoryEntry>, table: &SymbolTable) -> (r: Result<
    Vec<MemoryEntry>,
    ConfigError,
>)
    ensures
        r is Ok == all_resolve(keys(entry_views(m@)), table.symbols@),
        r matches Ok(w) ==> entry_views(w@) == resolve_keys(entry_views(m@), table.symbols@),
        r matches Err(e) ==> label_error(e, keys(entry_views(m@)), table.symbols@),
{
    let ghost ks = keys(entry_views(m@));
    let mut out: Vec<MemoryEntry> = Vec::new();
    let mut i: usize = 0;
    while i < m.len()
        invariant
            i <= m@.len(),
            ks == keys(entry_views(m@)),
            out@.len() == i,
            forall|k: int|
                0 <= k < i ==> (#[trigger] out@[k])@ == (
                    resolved(m@[k].address@, table.symbols@),
                    m@[k].assignment@,
                ),
            forall|k: int|
                0 <= k < i ==> (#[trigger] resolve_address(ks[k], table.symbols@)) is Some,
        decreases m@.len() - i,
    {
        assert(ks[i as int] == m@[i as int].address@);
        match m[i].address.resolve(table) {
            Ok(a) => {
                out.push(MemoryEntry { address: a, assignment: m[i].assignment.clone() });
            },
            Err(e) => {
                return Err(e);
            },
        }
        i = i + 1;
    }
    assert(entry_views(out@) =~= resolve_keys(entry_views(m@), table.symbols@));
    Ok(out)
}

/// The entries that survive shadowing are default entries with a key that
/// the local map does not assign, and each such default entry survives.
pub proof fn lemma_unshadowed(
    d: Seq<(AddressModel, AssignmentModel)>,
    l: Seq<(AddressModel, AssignmentModel)>,
)
    ensures
        forall|k: int|
            0 <= k < unshadowed(d, l).len() ==> !has_key(l, (#[trigger] unshadowed(d, l)[k]).0),
        forall|k: int|
            0 <= k < unshadowed(d, l).len() ==> exists|j: int|
                0 <= j < d.len() && d[j] == #[trigger] unshadowed(d, l)[k],
        forall|j: int|
            0 <= j < d.len() && !has_key(l, (#[trigger] d[j]).0) ==> exists|k: int|
                0 <= k < unshadowed(d, l).len() && unshadowed(d, l)[k] == d[j],
    decreases d.len(),
{
    if d.len() > 0 {
        let p = d.drop_last();
        lemma_unshadowed(p, l);
        let u = unshadowed(d, l);
        let up = unshadowed(p, l);
        assert forall|k: int| 0 <= k < u.len() implies exists|j: int|
            0 <= j < d.len() && d[j] == #[trigger] u[k] by {
            if k < up.len() {
                assert(u[k] == up[k]);
                let j = choose|j: int| 0 <= j < p.len() && p[j] == up[k];
                assert(d[j] == p[j]);
            } else {
                assert(u[k] == d[d.len() - 1]);
            }
        }
        assert forall|j: int| 0 <= j < d.len() && !has_key(l, (#[trigger] d[j]).0) implies exists|k: int|
            0 <= k < u.len() && u[k] == d[j] by {
            if j < p.len() {
                assert(p[j] == d[j]);
                let k = choose|k: int| 0 <= k < up.len() && up[k] == p[j];
                assert(u[k] == up[k]);
            } else {
                assert(u[u.len() - 1] == d[j]);
            }
        }
    }
}

} // verus!
