use vstd::prelude::*;
use crate::address::{
    all_resolve, all_raw, label_error, lemma_resolution_concat, resolve_address, resolved, Address, AddressModel, Symbol, SymbolTable,
};
use crate::error::ConfigError;

verus! {

/// The mathematical value of [`Registers`].
pub ghost struct RegistersModel {
    pub a: Option<u8>,
    pub b: Option<u8>,
    pub c: Option<u8>,
    pub d: Option<u8>,
    pub e: Option<u8>,
    pub h: Option<u8>,
    pub l: Option<u8>,
    pub bc: Option<AddressModel>,
    pub de: Option<AddressModel>,
    pub hl: Option<AddressModel>,
    pub pc: Option<AddressModel>,
    pub sp: Option<AddressModel>,
}

/// A partial assignment of the register file; an absent field is not asserted
/// or set, which is different from zero.
#[derive(Debug, PartialEq)]
pub struct Registers {
    pub a: Option<u8>,
    pub b: Option<u8>,
    pub c: Option<u8>,
    pub d: Option<u8>,
    pub e: Option<u8>,
    pub h: Option<u8>,
    pub l: Option<u8>,
    pub bc: Option<Address>,
    pub de: Option<Address>,
    pub hl: Option<Address>,
    pub pc: Option<Address>,
    pub sp: Option<Address>,
}

pub open spec fn opt_view(o: Option<Address>) -> Option<AddressModel> {
    match o {
        Some(a) => Some(a@),
        None => None,
    }
}

impl View for Registers {
    type V = RegistersModel;

    open spec fn view(&self) -> RegistersModel {
        RegistersModel {
            a: self.a,
            b: self.b,
            c: self.c,
            d: self.d,
            e: self.e,
            h: self.h,
            l: self.l,
            bc: opt_view(self.bc),
            de: opt_view(self.de),
            hl: opt_view(self.hl),
            pc: opt_view(self.pc),
            sp: opt_view(self.sp),
        }
    }
}

/// The empty snapshot: every register absent.
pub open spec fn empty_registers() -> RegistersModel {
    RegistersModel {
        a: None,
        b: None,
        c: None,
        d: None,
        e: None,
        h: None,
        l: None,
        bc: None,
        de: None,
        hl: None,
        pc: None,
        sp: None,
    }
}

/// The local value if there is one, else the default.
pub open spec fn inherit<T>(local: Option<T>, default: Option<T>) -> Option<T> {
    if local is Some {
        local
    } else {
        default
    }
}

pub open spec fn opt_seq(o: Option<AddressModel>) -> Seq<AddressModel> {
    match o {
        Some(a) => seq![a],
        None => Seq::empty(),
    }
}

pub open spec fn opt_resolved(o: Option<AddressModel>, t: Seq<Symbol>) -> Option<AddressModel> {
    match o {
        Some(a) => Some(resolved(a, t)),
        None => None,
    }
}

impl RegistersModel {
    /// The address registers that are present, in the order bc, de, hl, pc, sp.
    pub open spec fn addresses(self) -> Seq<AddressModel> {
        opt_seq(self.bc) + opt_seq(self.de) + opt_seq(self.hl) + opt_seq(self.pc) + opt_seq(
            self.sp,
        )
    }

    /// Each register of `self`, or of `default` where `self` has none.
    pub open spec fn merged(self, default: RegistersModel) -> RegistersModel {
        RegistersModel {
            a: inherit(self.a, default.a),
            b: inherit(self.b, default.b),
            c: inherit(self.c, default.c),
            d: inherit(self.d, default.d),
            e: inherit(self.e, default.e),
            h: inherit(self.h, default.h),
            l: inherit(self.l, default.l),
            bc: inherit(self.bc, default.bc),
            de: inherit(self.de, default.de),
            hl: inherit(self.hl, default.hl),
            pc: inherit(self.pc, default.pc),
            sp: inherit(self.sp, default.sp),
        }
    }

    pub open spec fn resolved(self, t: Seq<Symbol>) -> RegistersModel {
        RegistersModel {
            bc: opt_resolved(self.bc, t),
            de: opt_resolved(self.de, t),
            hl: opt_resolved(self.hl, t),
            pc: opt_resolved(self.pc, t),
            sp: opt_resolved(self.sp, t),
            ..self
        }
    }
}

fn clone_opt(o: &Option<Address>) -> (r: Option<Address>)
    ensures
        opt_view(r) == opt_view(*o),
{
    match o {
        Some(a) => Some(a.clone()),
        None => None,
    }
}

fn inherit_addr(local: &Option<Address>, default: &Option<Address>) -> (r: Option<Address>)
    ensures
        opt_view(r) == inherit(opt_view(*local), opt_view(*default)),
{
    if local.is_some() {
        clone_opt(local)
    } else {
        clone_opt(default)
    }
}

fn inherit_byte(local: Option<u8>, default: Option<u8>) -> (r: Option<u8>)
    ensures
        r == inherit(local, default),
{
    if local.is_some() {
        local
    } else {
        default
    }
}

fn resolve_opt(o: &Option<Address>, table: &SymbolTable) -> (r: Result<
    Option<Address>,
    ConfigError,
>)
    ensures
        r is Ok == all_resolve(opt_seq(opt_view(*o)), table.symbols@),
        r matches Ok(x) ==> opt_view(x) == opt_resolved(opt_view(*o), table.symbols@),
        r matches Err(e) ==> label_error(e, opt_seq(opt_view(*o)), table.symbols@),
{
    match o {
        Some(a) => {
            let ghost s = opt_seq(opt_view(*o));
            assert(s[0] == a@);
            match a.resolve(table) {
                Ok(x) => Ok(Some(x)),
                Err(e) => Err(e),
            }
        },
        None => Ok(None),
    }
}

impl Default for Registers {
    fn default() -> (r: Self)
        ensures
            r@ == empty_registers(),
    {
        Registers {
            a: None,
            b: None,
            c: None,
            d: None,
            e: None,
            h: None,
            l: None,
            bc: None,
            de: None,
            hl: None,
            pc: None,
            sp: None,
        }
    }
}

impl Clone for Registers {
    fn clone(&self) -> (r: Self)
        ensures
            r@ == self@,
    {
        Registers {
            a: self.a,
            b: self.b,
            c: self.c,
            d: self.d,
            e: self.e,
            h: self.h,
            l: self.l,
            bc: clone_opt(&self.bc),
            de: clone_opt(&self.de),
            hl: clone_opt(&self.hl),
            pc: clone_opt(&self.pc),
            sp: clone_opt(&self.sp),
        }
    }
}

impl Registers {
    /// The effective registers of a test: each local value, else the default.
    pub fn merge(&self, defaults: &Registers) -> (r: Registers)
        ensures
            r@ == self@.merged(defaults@),
    {
        Registers {
            a: inherit_byte(self.a, defaults.a),
            b: inherit_byte(self.b, defaults.b),
            c: inherit_byte(self.c, defaults.c),
            d: inherit_byte(self.d, defaults.d),
            e: inherit_byte(self.e, defaults.e),
            h: inherit_byte(self.h, defaults.h),
            l: inherit_byte(self.l, defaults.l),
            bc: inherit_addr(&self.bc, &defaults.bc),
            de: inherit_addr(&self.de, &defaults.de),
            hl: inherit_addr(&self.hl, &defaults.hl),
            pc: inherit_addr(&self.pc, &defaults.pc),
            sp: inherit_addr(&self.sp, &defaults.sp),
        }
    }

    /// Replaces each label of the address registers with its bound address.
    pub fn resolve(&self, table: &SymbolTable) -> (r: Result<Registers, ConfigError>)
        ensures
            r is Ok == all_resolve(self@.addresses(), table.symbols@),
            r matches Ok(x) ==> x@ == self@.resolved(table.symbols@),
            r matches Err(e) ==> label_error(e, self@.addresses(), table.symbols@),
    {
        let ghost t = table.symbols@;
        let ghost s1 = opt_seq(self@.bc);
        let ghost s2 = opt_seq(self@.de);
        let ghost s3 = opt_seq(self@.hl);
        let ghost s4 = opt_seq(self@.pc);
        let ghost s5 = opt_seq(self@.sp);
        proof {
            lemma_resolution_concat(s1, s2, t);
            lemma_resolution_concat(s1 + s2, s3, t);
            lemma_resolution_concat(s1 + s2 + s3, s4, t);
            lemma_resolution_concat(s1 + s2 + s3 + s4, s5, t);
        }
        let bc = match resolve_opt(&self.bc, table) {
            Ok(x) => x,
            Err(e) => return Err(e),
        };
        let de = match resolve_opt(&self.de, table) {
            Ok(x) => x,
            Err(e) => return Err(e),
        };
        let hl = match resolve_opt(&self.hl, table) {
            Ok(x) => x,
            Err(e) => return Err(e),
        };
        let pc = match resolve_opt(&self.pc, table) {
            Ok(x) => x,
            Err(e) => return Err(e),
        };
        let sp = match resolve_opt(&self.sp, table) {
            Ok(x) => x,
            Err(e) => return Err(e),
        };
        Ok(Registers { a: self.a, b: self.b, c: self.c, d: self.d, e: self.e, h: self.h, l: self.l, bc, de, hl, pc, sp })
    }
}

/// A register absent locally takes the file default; one present locally
/// keeps its own value whatever the default.
pub proof fn lemma_merge_inheritance(local: RegistersModel, default: RegistersModel)
    ensures
        local.a is None ==> local.merged(default).a == default.a,
        local.a is Some ==> local.merged(default).a == local.a,
        local.b is None ==> local.merged(default).b == default.b,
        local.b is Some ==> local.merged(default).b == local.b,
        local.c is None ==> local.merged(default).c == default.c,
        local.c is Some ==> local.merged(default).c == local.c,
        local.d is None ==> local.merged(default).d == default.d,
        local.d is Some ==> local.merged(default).d == local.d,
        local.e is None ==> local.merged(default).e == default.e,
        local.e is Some ==> local.merged(default).e == local.e,
        local.h is None ==> local.merged(default).h == default.h,
        local.h is Some ==> local.merged(default).h == local.h,
        local.l is None ==> local.merged(default).l == default.l,
        local.l is Some ==> local.merged(default).l == local.l,
        local.bc is None ==> local.merged(default).bc == default.bc,
        local.bc is Some ==> local.merged(default).bc == local.bc,
        local.de is None ==> local.merged(default).de == default.de,
        local.de is Some ==> local.merged(default).de == local.de,
        local.hl is None ==> local.merged(default).hl == default.hl,
        local.hl is Some ==> local.merged(default).hl == local.hl,
        local.pc is None ==> local.merged(default).pc == default.pc,
        local.pc is Some ==> local.merged(default).pc == local.pc,
        local.sp is None ==> local.merged(default).sp == default.sp,
        local.sp is Some ==> local.merged(default).sp == local.sp,
{
}

/// Resolving the registers with success leaves no label among them.
pub proof fn lemma_registers_resolved_raw(r: RegistersModel, t: Seq<Symbol>)
    requires
        all_resolve(r.addresses(), t),
    ensures
        all_raw(r.resolved(t).addresses()),
{
    let s1 = opt_seq(r.bc);
    let s2 = opt_seq(r.de);
    let s3 = opt_seq(r.hl);
    let s4 = opt_seq(r.pc);
    let s5 = opt_seq(r.sp);
    lemma_resolution_concat(s1, s2, t);
    lemma_resolution_concat(s1 + s2, s3, t);
    lemma_resolution_concat(s1 + s2 + s3, s4, t);
    lemma_resolution_concat(s1 + s2 + s3 + s4, s5, t);
    let q = r.resolved(t);
    let q1 = opt_seq(q.bc);
    let q2 = opt_seq(q.de);
    let q3 = opt_seq(q.hl);
    let q4 = opt_seq(q.pc);
    let q5 = opt_seq(q.sp);
    lemma_resolution_concat(q1, q2, t);
    lemma_resolution_concat(q1 + q2, q3, t);
    lemma_resolution_concat(q1 + q2 + q3, q4, t);
    lemma_resolution_concat(q1 + q2 + q3 + q4, q5, t);
    assert(s1.len() > 0 ==> resolve_address(s1[0], t) is Some);
    assert(s2.len() > 0 ==> resolve_address(s2[0], t) is Some);
    assert(s3.len() > 0 ==> resolve_address(s3[0], t) is Some);
    assert(s4.len() > 0 ==> resolve_address(s4[0], t) is Some);
    assert(s5.len() > 0 ==> resolve_address(s5[0], t) is Some);
    assert(all_raw(q1));
    assert(all_raw(q2));
    assert(all_raw(q3));
    assert(all_raw(q4));
    assert(all_raw(q5));
}

} // verus!
