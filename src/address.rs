use vstd::prelude::*;
use vstd::string::*;
use crate::error::ConfigError;

verus! {

/// The reserved value meaning "unset"; never an address the executor may use.
pub const UNSET_ADDRESS: u16 = 0xFFFF;

/// The mathematical value of an [`Address`].
pub ghost enum AddressModel {
    Raw(u16),
    Label(Seq<char>),
}

/// A reference to a 16-bit memory location, concrete or symbolic.
#[derive(Debug, PartialEq)]
pub enum Address {
    Raw(u16),
    Label(String),
}

impl View for Address {
    type V = AddressModel;

    open spec fn view(&self) -> AddressModel {
        match self {
            Address::Raw(v) => AddressModel::Raw(*v),
            Address::Label(s) => AddressModel::Label(s@),
        }
    }
}

impl Clone for Address {
    fn clone(&self) -> (r: Self)
        ensures
            r@ == self@,
    {
        match self {
            Address::Raw(v) => Address::Raw(*v),
            Address::Label(s) => Address::Label(s.clone()),
        }
    }
}

impl Default for Address {
    fn default() -> (r: Self)
        ensures
            r@ == AddressModel::Raw(UNSET_ADDRESS),
    {
        Address::Raw(UNSET_ADDRESS)
    }
}

pub open spec fn is_digit(c: char, base: int) -> bool {
    ('0' <= c && c <= '9') || (base == 16 && (('a' <= c && c <= 'f') || ('A' <= c && c <= 'F')))
}

/// The value of one digit; zero for a character that is no digit.
pub open spec fn digit_value(c: char) -> int {
    if '0' <= c && c <= '9' {
        c as int - '0' as int
    } else if 'a' <= c && c <= 'f' {
        c as int - 'a' as int + 10
    } else if 'A' <= c && c <= 'F' {
        c as int - 'A' as int + 10
    } else {
        0
    }
}

pub open spec fn all_digits(s: Seq<char>, base: int) -> bool {
    forall|i: int| 0 <= i < s.len() ==> is_digit(#[trigger] s[i], base)
}

/// The value of a numeral, most significant digit first.
pub open spec fn numeral_value(s: Seq<char>, base: int) -> int
    decreases s.len(),
{
    if s.len() == 0 {
        0
    } else {
        numeral_value(s.drop_last(), base) * base + digit_value(s.last())
    }
}

pub open spec fn has_hex_prefix(s: Seq<char>) -> bool {
    s.len() >= 2 && s[0] == '0' && (s[1] == 'x' || s[1] == 'X')
}

/// The value of an unsigned integer literal: decimal digits, or `0x` / `0X`
/// followed by hexadecimal digits. `None` when the token is no such literal.
pub open spec fn numeric_token(s: Seq<char>) -> Option<int> {
    if has_hex_prefix(s) && s.len() > 2 && all_digits(s.skip(2), 16) {
        Some(numeral_value(s.skip(2), 16))
    } else if s.len() > 0 && all_digits(s, 10) {
        Some(numeral_value(s, 10))
    } else {
        None
    }
}

pub open spec fn is_ident_start(c: char) -> bool {
    ('a' <= c && c <= 'z') || ('A' <= c && c <= 'Z') || c == '_'
}

pub open spec fn is_ident_char(c: char) -> bool {
    is_ident_start(c) || ('0' <= c && c <= '9')
}

/// A non-empty identifier: a letter or underscore, then letters, digits, underscores.
pub open spec fn is_identifier(s: Seq<char>) -> bool {
    &&& s.len() > 0
    &&& is_ident_start(s[0])
    &&& forall|i: int| 1 <= i < s.len() ==> is_ident_char(#[trigger] s[i])
}

/// Parse-time reading of a token: a literal in `0..=0xFFFF` is a raw address,
/// an identifier a label, anything else is rejected.
pub open spec fn parse_token(s: Seq<char>) -> Option<AddressModel> {
    match numeric_token(s) {
        Some(v) => if v <= 0xFFFF {
            Some(AddressModel::Raw(v as u16))
        } else {
            None
        },
        None => if is_identifier(s) {
            Some(AddressModel::Label(s))
        } else {
            None
        },
    }
}

proof fn lemma_numeral_nonneg(s: Seq<char>, base: int)
    requires
        base >= 1,
    ensures
        numeral_value(s, base) >= 0,
    decreases s.len(),
{
    if s.len() > 0 {
        lemma_numeral_nonneg(s.drop_last(), base);
        let p = numeral_value(s.drop_last(), base);
        assert(p * base >= 0) by (nonlinear_arith)
            requires
                p >= 0,
                base >= 1,
        ;
    }
}

proof fn lemma_numeral_monotone(s: Seq<char>, base: int, j: int)
    requires
        base >= 1,
        0 <= j <= s.len(),
    ensures
        numeral_value(s.take(j), base) <= numeral_value(s, base),
    decreases s.len(),
{
    if j == s.len() {
        assert(s.take(j) =~= s);
    } else {
        let d = s.drop_last();
        lemma_numeral_monotone(d, base, j);
        assert(d.take(j) =~= s.take(j));
        lemma_numeral_nonneg(d, base);
        let p = numeral_value(d, base);
        assert(p * base >= p) by (nonlinear_arith)
            requires
                p >= 0,
                base >= 1,
        ;
    }
}

fn char_digit_value(c: char) -> (r: u32)
    ensures
        r as int == digit_value(c),
        r <= 15,
{
    if '0' <= c && c <= '9' {
        (c as u32) - ('0' as u32)
    } else if 'a' <= c && c <= 'f' {
        (c as u32) - ('a' as u32) + 10
    } else if 'A' <= c && c <= 'F' {
        (c as u32) - ('A' as u32) + 10
    } else {
        0
    }
}

/// The value of the numeral `s[start..]`, if it fits 16 bits.
fn bounded_numeral(s: &str, start: usize, base: u32) -> (r: Option<u16>)
    requires
        start <= s@.len(),
        base == 10 || base == 16,
    ensures
        numeral_value(s@.skip(start as int), base as int) <= 0xFFFF ==> r == Some(
            numeral_value(s@.skip(start as int), base as int) as u16,
        ),
        numeral_value(s@.skip(start as int), base as int) > 0xFFFF ==> r is None,
{
    let n = s.unicode_len();
    let ghost t = s@.skip(start as int);
    let mut acc: u32 = 0;
    let mut i: usize = start;
    while i < n
        invariant
            start <= i <= n,
            n == s@.len(),
            t == s@.skip(start as int),
            base == 10 || base == 16,
            acc as int == numeral_value(t.take(i - start), base as int),
            acc <= 0xFFFF,
        decreases n - i,
    {
        let c = s.get_char(i);
        let d = char_digit_value(c);
        proof {
            assert(t.take(i + 1 - start).drop_last() =~= t.take(i - start));
            assert(t.take(i + 1 - start).last() == c);
        }
        assert(acc * base <= 0xFFFF * 16) by (nonlinear_arith)
            requires
                acc <= 0xFFFF,
                base <= 16,
        ;
        let next: u32 = acc * base + d;
        if next > 0xFFFF {
            proof {
                lemma_numeral_monotone(t, base as int, i + 1 - start);
            }
            return None;
        }
        acc = next;
        i = i + 1;
    }
    proof {
        assert(t.take(n - start) =~= t);
    }
    Some(acc as u16)
}

fn is_dec_char(c: char) -> (r: bool)
    ensures
        r == is_digit(c, 10),
{
    '0' <= c && c <= '9'
}

fn is_hex_char(c: char) -> (r: bool)
    ensures
        r == is_digit(c, 16),
{
    ('0' <= c && c <= '9') || ('a' <= c && c <= 'f') || ('A' <= c && c <= 'F')
}

fn is_ident_start_char(c: char) -> (r: bool)
    ensures
        r == is_ident_start(c),
{
    ('a' <= c && c <= 'z') || ('A' <= c && c <= 'Z') || c == '_'
}

/// Whether `s[start..]` holds digits of the base only.
fn digits_from(s: &str, start: usize, base: u32) -> (r: bool)
    requires
        start <= s@.len(),
        base == 10 || base == 16,
    ensures
        r == all_digits(s@.skip(start as int), base as int),
{
    let n = s.unicode_len();
    let mut i: usize = start;
    while i < n
        invariant
            start <= i <= n,
            n == s@.len(),
            base == 10 || base == 16,
            forall|k: int| start <= k < i ==> is_digit(#[trigger] s@[k], base as int),
        decreases n - i,
    {
        let c = s.get_char(i);
        let ok = if base == 10 {
            is_dec_char(c)
        } else {
            is_hex_char(c)
        };
        if !ok {
            assert(s@.skip(start as int)[i - start] == c);
            return false;
        }
        i = i + 1;
    }
    assert forall|k: int| 0 <= k < s@.skip(start as int).len() implies is_digit(
        #[trigger] s@.skip(start as int)[k],
        base as int,
    ) by {
        assert(s@.skip(start as int)[k] == s@[k + start]);
    }
    true
}

fn identifier(s: &str) -> (r: bool)
    ensures
        r == is_identifier(s@),
{
    let n = s.unicode_len();
    if n == 0 {
        return false;
    }
    if !is_ident_start_char(s.get_char(0)) {
        return false;
    }
    let mut i: usize = 1;
    while i < n
        invariant
            1 <= i <= n,
            n == s@.len(),
            forall|k: int| 1 <= k < i ==> is_ident_char(#[trigger] s@[k]),
        decreases n - i,
    {
        let c = s.get_char(i);
        if !(is_ident_start_char(c) || ('0' <= c && c <= '9')) {
            return false;
        }
        i = i + 1;
    }
    true
}

impl Address {
    /// Reads a table key or scalar field: an unsigned literal (decimal or
    /// `0x`-prefixed) in `0..=0xFFFF` gives `Raw`, an identifier `Label`.
    pub fn from_raw_token(token: &str) -> (r: Result<Address, ConfigError>)
        ensures
            match parse_token(token@) {
                Some(m) => r matches Ok(a) && a@ == m,
                None => r matches Err(ConfigError::InvalidAddressToken(t)) && t@ == token@,
            },
    {
        let n = token.unicode_len();
        if n > 2 && token.get_char(0) == '0' && (token.get_char(1) == 'x' || token.get_char(1)
            == 'X') && digits_from(token, 2, 16) {
            match bounded_numeral(token, 2, 16) {
                Some(v) => return Ok(Address::Raw(v)),
                None => return Err(ConfigError::InvalidAddressToken(token.to_owned())),
            }
        }
        if n > 0 && digits_from(token, 0, 10) {
            assert(token@.skip(0) =~= token@);
            match bounded_numeral(token, 0, 10) {
                Some(v) => return Ok(Address::Raw(v)),
                None => return Err(ConfigError::InvalidAddressToken(token.to_owned())),
            }
        }
        assert(token@.skip(0) =~= token@);
        if identifier(token) {
            Ok(Address::Label(token.to_owned()))
        } else {
            Err(ConfigError::InvalidAddressToken(token.to_owned()))
        }
    }

    /// The conversion of an entry name into a memory key.
    pub fn try_from(key: &String) -> (r: Result<Address, ConfigError>)
        ensures
            match parse_token(key@) {
                Some(m) => r matches Ok(a) && a@ == m,
                None => r matches Err(ConfigError::InvalidAddressToken(t)) && t@ == key@,
            },
    {
        Address::from_raw_token(key.as_str())
    }
}

/// One label of the symbol table that assembling the program produced.
#[derive(Debug, PartialEq)]
pub struct Symbol {
    pub name: String,
    pub address: u16,
}

/// The mapping from label names to concrete addresses; a later entry for the
/// same name takes precedence.
#[derive(Debug, PartialEq)]
pub struct SymbolTable {
    pub symbols: Vec<Symbol>,
}

/// The address bound to a label name, the last binding winning.
pub open spec fn lookup_symbol(t: Seq<Symbol>, name: Seq<char>) -> Option<u16>
    decreases t.len(),
{
    if t.len() == 0 {
        None
    } else if t.last().name@ == name {
        Some(t.last().address)
    } else {
        lookup_symbol(t.drop_last(), name)
    }
}

/// The concrete address that an address stands for under a symbol table.
pub open spec fn resolve_address(a: AddressModel, t: Seq<Symbol>) -> Option<u16> {
    match a {
        AddressModel::Raw(v) => Some(v),
        AddressModel::Label(n) => lookup_symbol(t, n),
    }
}

/// An address after link-time resolution; an unbound label stays as it is.
pub open spec fn resolved(a: AddressModel, t: Seq<Symbol>) -> AddressModel {
    match resolve_address(a, t) {
        Some(v) => AddressModel::Raw(v),
        None => a,
    }
}

pub open spec fn all_resolve(s: Seq<AddressModel>, t: Seq<Symbol>) -> bool {
    forall|i: int| 0 <= i < s.len() ==> (#[trigger] resolve_address(s[i], t)) is Some
}

pub open spec fn all_raw(s: Seq<AddressModel>) -> bool {
    forall|i: int| 0 <= i < s.len() ==> (#[trigger] s[i]) is Raw
}

/// `n` is a label that occurs in `s` and that the table does not bind.
pub open spec fn unresolved_in(n: Seq<char>, s: Seq<AddressModel>, t: Seq<Symbol>) -> bool {
    &&& lookup_symbol(t, n) is None
    &&& exists|i: int| 0 <= i < s.len() && s[i] == AddressModel::Label(n)
}

pub open spec fn resolve_all(s: Seq<AddressModel>, t: Seq<Symbol>) -> Seq<AddressModel> {
    s.map_values(|a: AddressModel| resolved(a, t))
}

/// What an unresolved-label error says of a sequence of addresses.
pub open spec fn label_error(e: ConfigError, s: Seq<AddressModel>, t: Seq<Symbol>) -> bool {
    e matches ConfigError::UnresolvedLabel(n) && unresolved_in(n@, s, t)
}

impl SymbolTable {
    pub fn lookup(&self, name: &String) -> (r: Option<u16>)
        ensures
            r == lookup_symbol(self.symbols@, name@),
    {
        let mut i: usize = self.symbols.len();
        assert(self.symbols@.take(i as int) =~= self.symbols@);
        while i > 0
            invariant
                i <= self.symbols@.len(),
                lookup_symbol(self.symbols@, name@) == lookup_symbol(
                    self.symbols@.take(i as int),
                    name@,
                ),
            decreases i,
        {
            let ghost p = self.symbols@.take(i as int);
            assert(p.drop_last() =~= self.symbols@.take(i - 1));
            if self.symbols[i - 1].name == *name {
                return Some(self.symbols[i - 1].address);
            }
            i = i - 1;
        }
        None
    }
}

impl Address {
    /// Link-time resolution: a label becomes the raw address that the table
    /// binds it to; a raw address is kept.
    pub fn resolve(&self, table: &SymbolTable) -> (r: Result<Address, ConfigError>)
        ensures
            match resolve_address(self@, table.symbols@) {
                Some(v) => r matches Ok(a) && a@ == AddressModel::Raw(v),
                None => r matches Err(ConfigError::UnresolvedLabel(n)) && self@
                    == AddressModel::Label(n@),
            },
    {
        match self {
            Address::Raw(v) => Ok(Address::Raw(*v)),
            Address::Label(n) => match table.lookup(n) {
                Some(v) => Ok(Address::Raw(v)),
                None => Err(ConfigError::UnresolvedLabel(n.clone())),
            },
        }
    }
}

/// Resolves each address of a sequence, stopping at the first unbound label.
pub fn resolve_addresses(v: &Vec<Address>, table: &SymbolTable) -> (r: Result<
    Vec<Address>,
    ConfigError,
>)
    ensures
        r is Ok == all_resolve(views(v@), table.symbols@),
        r matches Ok(w) ==> views(w@) == resolve_all(views(v@), table.symbols@),
        r matches Err(e) ==> label_error(e, views(v@), table.symbols@),
{
    let mut out: Vec<Address> = Vec::new();
    let mut i: usize = 0;
    while i < v.len()
        invariant
            i <= v@.len(),
            out@.len() == i,
            forall|k: int| 0 <= k < i ==> (#[trigger] out@[k])@ == resolved(v@[k]@, table.symbols@),
            forall|k: int|
                0 <= k < i ==> (#[trigger] resolve_address(v@[k]@, table.symbols@)) is Some,
        decreases v@.len() - i,
    {
        match v[i].resolve(table) {
            Ok(a) => out.push(a),
            Err(e) => {
                assert(views(v@)[i as int] == v@[i as int]@);
                return Err(e);
            },
        }
        i = i + 1;
    }
    assert(views(out@) =~= resolve_all(views(v@), table.symbols@));
    Ok(out)
}

/// The models of a sequence of addresses.
pub open spec fn views(s: Seq<Address>) -> Seq<AddressModel> {
    s.map_values(|a: Address| a@)
}

/// The mathematical value of [`Addresses`].
pub ghost enum AddressesModel {
    Single(AddressModel),
    Multiple(Seq<AddressModel>),
}

impl AddressesModel {
    /// The addresses listed, in order.
    pub open spec fn points(self) -> Seq<AddressModel> {
        match self {
            AddressesModel::Single(a) => seq![a],
            AddressesModel::Multiple(s) => s,
        }
    }

    pub open spec fn resolved(self, t: Seq<Symbol>) -> AddressesModel {
        match self {
            AddressesModel::Single(a) => AddressesModel::Single(resolved(a, t)),
            AddressesModel::Multiple(s) => AddressesModel::Multiple(resolve_all(s, t)),
        }
    }
}

/// One checkpoint address, or an ordered list of them.
#[derive(Debug, PartialEq)]
pub enum Addresses {
    Single(Address),
    Multiple(Vec<Address>),
}

impl View for Addresses {
    type V = AddressesModel;

    open spec fn view(&self) -> AddressesModel {
        match self {
            Addresses::Single(a) => AddressesModel::Single(a@),
            Addresses::Multiple(v) => AddressesModel::Multiple(views(v@)),
        }
    }
}

impl Default for Addresses {
    fn default() -> (r: Self)
        ensures
            r@ == AddressesModel::Single(AddressModel::Raw(UNSET_ADDRESS)),
    {
        Addresses::Single(Address::default())
    }
}

impl Addresses {
    pub fn resolve(&self, table: &SymbolTable) -> (r: Result<Addresses, ConfigError>)
        ensures
            r is Ok == all_resolve(self@.points(), table.symbols@),
            r matches Ok(w) ==> w@ == self@.resolved(table.symbols@),
            r matches Err(e) ==> label_error(e, self@.points(), table.symbols@),
    {
        match self {
            Addresses::Single(a) => {
                let r = a.resolve(table);
                assert(self@.points()[0] == a@);
                match r {
                    Ok(x) => Ok(Addresses::Single(x)),
                    Err(e) => Err(e),
                }
            },
            Addresses::Multiple(v) => match resolve_addresses(v, table) {
                Ok(w) => Ok(Addresses::Multiple(w)),
                Err(e) => Err(e),
            },
        }
    }
}

/// Resolution of a concatenation is resolution of each part.
pub proof fn lemma_resolution_concat(s1: Seq<AddressModel>, s2: Seq<AddressModel>, t: Seq<Symbol>)
    ensures
        all_resolve(s1 + s2, t) == (all_resolve(s1, t) && all_resolve(s2, t)),
        all_raw(s1 + s2) == (all_raw(s1) && all_raw(s2)),
        resolve_all(s1 + s2, t) == resolve_all(s1, t) + resolve_all(s2, t),
        forall|n: Seq<char>|
            unresolved_in(n, s1, t) || unresolved_in(n, s2, t) ==> #[trigger] unresolved_in(
                n,
                s1 + s2,
                t,
            ),
{
    let s = s1 + s2;
    if all_resolve(s, t) {
        assert forall|i: int| 0 <= i < s1.len() implies (#[trigger] resolve_address(
            s1[i],
            t,
        )) is Some by {
            assert(s[i] == s1[i]);
        }
        assert forall|i: int| 0 <= i < s2.len() implies (#[trigger] resolve_address(
            s2[i],
            t,
        )) is Some by {
            assert(s[i + s1.len()] == s2[i]);
        }
    }
    if all_raw(s) {
        assert forall|i: int| 0 <= i < s1.len() implies (#[trigger] s1[i]) is Raw by {
            assert(s[i] == s1[i]);
        }
        assert forall|i: int| 0 <= i < s2.len() implies (#[trigger] s2[i]) is Raw by {
            assert(s[i + s1.len()] == s2[i]);
        }
    }
    assert(resolve_all(s1 + s2, t) =~= resolve_all(s1, t) + resolve_all(s2, t));
    assert forall|n: Seq<char>|
        unresolved_in(n, s1, t) || unresolved_in(n, s2, t) implies #[trigger] unresolved_in(
        n,
        s1 + s2,
        t,
    ) by {
        if unresolved_in(n, s1, t) {
            let i = choose|i: int| 0 <= i < s1.len() && s1[i] == AddressModel::Label(n);
            assert(s[i] == s1[i]);
        } else {
            let i = choose|i: int| 0 <= i < s2.len() && s2[i] == AddressModel::Label(n);
            assert(s[i + s1.len()] == s2[i]);
        }
    }
}

/// Resolving an address that is already raw changes nothing.
pub proof fn lemma_resolve_raw_is_identity(a: AddressModel, t: Seq<Symbol>)
    requires
        a is Raw,
    ensures
        resolve_address(a, t) == Some(a->Raw_0),
        resolved(a, t) == a,
{
}

/// A parsed numeric token is raw, so link-time resolution leaves it as it is,
/// under every symbol table.
pub proof fn lemma_numeric_token_resolution_noop(s: Seq<char>, t: Seq<Symbol>)
    requires
        numeric_token(s) is Some,
        parse_token(s) is Some,
    ensures
        parse_token(s)->Some_0 is Raw,
        resolved(parse_token(s)->Some_0, t) == parse_token(s)->Some_0,
        resolved(resolved(parse_token(s)->Some_0, t), t) == resolved(parse_token(s)->Some_0, t),
{
}

/// A successful resolution leaves no label behind.
pub proof fn lemma_resolve_all_raw(s: Seq<AddressModel>, t: Seq<Symbol>)
    requires
        all_resolve(s, t),
    ensures
        all_raw(resolve_all(s, t)),
{
    assert forall|i: int| 0 <= i < resolve_all(s, t).len() implies (#[trigger] resolve_all(
        s,
        t,
    )[i]) is Raw by {
        assert(resolve_address(s[i], t) is Some);
    }
}

/// An unbound label in a sequence keeps the sequence from resolving.
pub proof fn lemma_unresolved_blocks(n: Seq<char>, s: Seq<AddressModel>, t: Seq<Symbol>)
    requires
        unresolved_in(n, s, t),
    ensures
        !all_resolve(s, t),
{
    let i = choose|i: int| 0 <= i < s.len() && s[i] == AddressModel::Label(n);
    assert(resolve_address(s[i], t) is None);
}

} // verus!
