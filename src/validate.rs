use vstd::prelude::*;
use crate::address::{Address, AddressModel, Addresses, AddressesModel, UNSET_ADDRESS};
use crate::config::{MemoryModel, TestModel};
use crate::error::{ConfigError, Violation};
use crate::memory::{assignment_len, entry_views, has_key, MemoryEntry};
use crate::pipeline::{ConfigModel, ResolvedConfig};

verus! {

/// Two byte ranges, each from a base address over a length, share a byte.
pub open spec fn ranges_overlap(a: u16, la: nat, b: u16, lb: nat) -> bool {
    &&& la > 0
    &&& lb > 0
    &&& a < b + lb
    &&& b < a + la
}

/// Entries `i < j` of the map have raw keys `a` and `b` and overlap.
pub open spec fn overlap_at(m: MemoryModel, i: int, j: int, a: u16, b: u16) -> bool {
    &&& 0 <= i < j < m.len()
    &&& m[i].0 == AddressModel::Raw(a)
    &&& m[j].0 == AddressModel::Raw(b)
    &&& ranges_overlap(a, assignment_len(m[i].1), b, assignment_len(m[j].1))
}

pub open spec fn overlapping_pair(m: MemoryModel, a: u16, b: u16) -> bool {
    exists|i: int, j: int| overlap_at(m, i, j, a, b)
}

/// No key is the unset sentinel and no two assignments overlap.
pub open spec fn map_ok(m: MemoryModel) -> bool {
    &&& !has_key(m, AddressModel::Raw(UNSET_ADDRESS))
    &&& forall|i: int, j: int, a: u16, b: u16| !overlap_at(m, i, j, a, b)
}

/// Checkpoints are fine unless a listed one is the sentinel; the lone
/// sentinel is how "no checkpoint" reads.
pub open spec fn points_ok(p: AddressesModel) -> bool {
    match p {
        AddressesModel::Single(_) => true,
        AddressesModel::Multiple(s) => forall|i: int|
            0 <= i < s.len() ==> #[trigger] s[i] != AddressModel::Raw(UNSET_ADDRESS),
    }
}

pub open spec fn owner_view(o: Option<String>) -> Option<Seq<char>> {
    match o {
        Some(s) => Some(s@),
        None => None,
    }
}

/// A violation that the map owned by `owner` shows.
pub open spec fn map_violation(v: Violation, m: MemoryModel, owner: Option<Seq<char>>) -> bool {
    match v {
        Violation::UnsetMemoryKey(o) => owner_view(o) == owner && has_key(
            m,
            AddressModel::Raw(UNSET_ADDRESS),
        ),
        Violation::MemoryOverlap(o, a, b) => owner_view(o) == owner && overlapping_pair(m, a, b),
        _ => false,
    }
}

/// A violation that the configuration shows.
pub open spec fn violation_holds(v: Violation, c: ConfigModel) -> bool {
    match v {
        Violation::UnsetCaller => c.meta.caller == AddressModel::Raw(UNSET_ADDRESS),
        Violation::UnsetCrashPoint => !points_ok(c.meta.crash),
        Violation::UnsetExitPoint => !points_ok(c.meta.exit),
        Violation::DuplicateTestName(n) => exists|i: int, j: int|
            0 <= i < j < c.tests.len() && c.tests[i].name == n@ && c.tests[j].name == n@,
        _ => map_violation(v, c.memory, None) || exists|i: int|
            0 <= i < c.tests.len() && (map_violation(v, c.tests[i].memory, Some(c.tests[i].name))
                || (c.tests[i].result matches Some(r) && map_violation(
                v,
                r.memory,
                Some(c.tests[i].name),
            ))),
    }
}

/// The memory maps of a test hold their invariants.
pub open spec fn test_ok(t: TestModel) -> bool {
    &&& map_ok(t.memory)
    &&& t.result matches Some(r) ==> map_ok(r.memory)
}

/// The invariants that a configuration must hold before it runs.
pub open spec fn is_valid(c: ConfigModel) -> bool {
    &&& c.meta.caller != AddressModel::Raw(UNSET_ADDRESS)
    &&& points_ok(c.meta.crash)
    &&& points_ok(c.meta.exit)
    &&& map_ok(c.memory)
    &&& forall|i: int| 0 <= i < c.tests.len() ==> test_ok(#[trigger] c.tests[i])
    &&& forall|i: int, j: int| 0 <= i < j < c.tests.len() ==> c.tests[i].name != c.tests[j].name
}

/// The list names an overlap of `a` and `b` in the map of `owner`.
pub open spec fn listed_overlap(s: Seq<Violation>, owner: Option<Seq<char>>, a: u16, b: u16) -> bool {
    exists|k: int|
        0 <= k < s.len() && (#[trigger] s[k] matches Violation::MemoryOverlap(o, x, y) && owner_view(
            o,
        ) == owner && x == a && y == b)
}

/// The list names an unset key in the map of `owner`.
pub open spec fn listed_unset_key(s: Seq<Violation>, owner: Option<Seq<char>>) -> bool {
    exists|k: int|
        0 <= k < s.len() && (#[trigger] s[k] matches Violation::UnsetMemoryKey(o) && owner_view(o)
            == owner)
}

/// The list names `n` as a test name used twice.
pub open spec fn listed_duplicate(s: Seq<Violation>, n: Seq<char>) -> bool {
    exists|k: int| 0 <= k < s.len() && (#[trigger] s[k] matches Violation::DuplicateTestName(x) && x@ == n)
}

/// The list holds `v`.
pub open spec fn listed(s: Seq<Violation>, v: Violation) -> bool {
    exists|k: int| 0 <= k < s.len() && #[trigger] s[k] == v
}

/// The list names each violation of the map of `owner`.
pub open spec fn map_listed(s: Seq<Violation>, m: MemoryModel, owner: Option<Seq<char>>) -> bool {
    &&& has_key(m, AddressModel::Raw(UNSET_ADDRESS)) ==> listed_unset_key(s, owner)
    &&& forall|i: int, j: int, a: u16, b: u16|
        #[trigger] overlap_at(m, i, j, a, b) ==> listed_overlap(s, owner, a, b)
}

/// The list names each violation of the memory and result memory of a test.
pub open spec fn test_listed(s: Seq<Violation>, t: TestModel) -> bool {
    &&& map_listed(s, t.memory, Some(t.name))
    &&& t.result matches Some(r) ==> map_listed(s, r.memory, Some(t.name))
}

/// The list names every violation of the configuration.
pub open spec fn all_listed(s: Seq<Violation>, c: ConfigModel) -> bool {
    &&& c.meta.caller == AddressModel::Raw(UNSET_ADDRESS) ==> listed(s, Violation::UnsetCaller)
    &&& !points_ok(c.meta.crash) ==> listed(s, Violation::UnsetCrashPoint)
    &&& !points_ok(c.meta.exit) ==> listed(s, Violation::UnsetExitPoint)
    &&& map_listed(s, c.memory, None)
    &&& forall|t: int| 0 <= t < c.tests.len() ==> test_listed(s, #[trigger] c.tests[t])
    &&& forall|p: int, q: int|
        0 <= p < q < c.tests.len() && (#[trigger] c.tests[p]).name == (
        #[trigger] c.tests[q]).name ==> listed_duplicate(s, c.tests[p].name)
}

/// What a list names stays named in a list that extends it.
proof fn lemma_listed_extends(s: Seq<Violation>, s2: Seq<Violation>)
    requires
        s2.len() >= s.len(),
        s2.subrange(0, s.len() as int) == s,
    ensures
        forall|o: Option<Seq<char>>, a: u16, b: u16|
            #[trigger] listed_overlap(s, o, a, b) ==> listed_overlap(s2, o, a, b),
        forall|o: Option<Seq<char>>| #[trigger] listed_unset_key(s, o) ==> listed_unset_key(s2, o),
        forall|n: Seq<char>| #[trigger] listed_duplicate(s, n) ==> listed_duplicate(s2, n),
        forall|v: Violation| #[trigger] listed(s, v) ==> listed(s2, v),
        forall|k: int| 0 <= k < s.len() ==> s2[k] == #[trigger] s[k],
        forall|m: MemoryModel, o: Option<Seq<char>>| #[trigger] map_listed(s, m, o) ==> map_listed(s2, m, o),
        forall|t: TestModel| #[trigger] test_listed(s, t) ==> test_listed(s2, t),
{
    assert forall|k: int| 0 <= k < s.len() implies s2[k] == #[trigger] s[k] by {
        assert(s2.subrange(0, s.len() as int)[k] == s2[k]);
    }
    assert forall|o: Option<Seq<char>>, a: u16, b: u16|
        #[trigger] listed_overlap(s, o, a, b) implies listed_overlap(s2, o, a, b) by {
        let k = choose|k: int|
            0 <= k < s.len() && (#[trigger] s[k] matches Violation::MemoryOverlap(x, y, z)
                && owner_view(x) == o && y == a && z == b);
        assert(s2[k] == s[k]);
    }
    assert forall|o: Option<Seq<char>>| #[trigger] listed_unset_key(s, o) implies listed_unset_key(
        s2,
        o,
    ) by {
        let k = choose|k: int|
            0 <= k < s.len() && (#[trigger] s[k] matches Violation::UnsetMemoryKey(x) && owner_view(x)
                == o);
        assert(s2[k] == s[k]);
    }
    assert forall|v: Violation| #[trigger] listed(s, v) implies listed(s2, v) by {
        let k = choose|k: int| 0 <= k < s.len() && #[trigger] s[k] == v;
        assert(s2[k] == s[k]);
    }
    assert forall|n: Seq<char>| #[trigger] listed_duplicate(s, n) implies listed_duplicate(s2, n) by {
        let k = choose|k: int|
            0 <= k < s.len() && (#[trigger] s[k] matches Violation::DuplicateTestName(x) && x@ == n);
        assert(s2[k] == s[k]);
    }
}

fn clone_owner(o: &Option<String>) -> (r: Option<String>)
    ensures
        owner_view(r) == owner_view(*o),
{
    match o {
        Some(s) => Some(s.clone()),
        None => None,
    }
}

fn check_points(p: &Addresses) -> (r: bool)
    ensures
        r == points_ok(p@),
{
    match p {
        Addresses::Single(_) => true,
        Addresses::Multiple(v) => {
            let mut i: usize = 0;
            while i < v.len()
                invariant
                    i <= v@.len(),
                    *p == Addresses::Multiple(*v),
                    forall|k: int| 0 <= k < i ==> (#[trigger] v@[k])@ != AddressModel::Raw(UNSET_ADDRESS),
                decreases v@.len() - i,
            {
                if let Address::Raw(x) = &v[i] {
                    if *x == UNSET_ADDRESS {
                        assert(p@->Multiple_0[i as int] == v@[i as int]@);
                        return false;
                    }
                }
                i = i + 1;
            }
            assert forall|k: int| 0 <= k < p@->Multiple_0.len() implies #[trigger] p@->Multiple_0[k]
                != AddressModel::Raw(UNSET_ADDRESS) by {
                assert(p@->Multiple_0[k] == v@[k]@);
            }
            true
        },
    }
}

/// Adds the violations of one memory map to `out`: an unset key, then each
/// overlapping pair.
fn check_map(m: &Vec<MemoryEntry>, owner: &Option<String>, out: &mut Vec<Violation>)
    ensures
        final(out)@.len() >= old(out)@.len(),
        final(out)@.subrange(0, old(out)@.len() as int) == old(out)@,
        forall|k: int|
            old(out)@.len() <= k < final(out)@.len() ==> map_violation(
                #[trigger] final(out)@[k],
                entry_views(m@),
                owner_view(*owner),
            ),
        (final(out)@.len() == old(out)@.len()) == map_ok(entry_views(m@)),
        has_key(entry_views(m@), AddressModel::Raw(UNSET_ADDRESS)) ==> listed_unset_key(
            final(out)@,
            owner_view(*owner),
        ),
        forall|i: int, j: int, a: u16, b: u16|
            #[trigger] overlap_at(entry_views(m@), i, j, a, b) ==> listed_overlap(
                final(out)@,
                owner_view(*owner),
                a,
                b,
            ),
{
    let ghost mv = entry_views(m@);
    let ghost o = owner_view(*owner);
    let ghost start = out@;
    let mut i: usize = 0;
    let mut unset = false;
    while i < m.len()
        invariant
            i <= m@.len(),
            mv == entry_views(m@),
            out@ == start,
            unset == exists|k: int| 0 <= k < i && mv[k].0 == AddressModel::Raw(UNSET_ADDRESS),
        decreases m@.len() - i,
    {
        assert(mv[i as int] == m@[i as int]@);
        if let Address::Raw(x) = &m[i].address {
            if *x == UNSET_ADDRESS {
                unset = true;
            }
        }
        i = i + 1;
    }
    if unset {
        let v = Violation::UnsetMemoryKey(clone_owner(owner));
        out.push(v);
        assert(out@[out@.len() - 1] == v);
    }
    let ghost mid = out@;
    let mut i: usize = 0;
    while i < m.len()
        invariant
            i <= m@.len(),
            mv == entry_views(m@),
            o == owner_view(*owner),
            out@.len() >= start.len(),
            out@.subrange(0, start.len() as int) == start,
            forall|k: int|
                start.len() <= k < out@.len() ==> map_violation(#[trigger] out@[k], mv, o),
            (out@.len() == start.len()) == (!has_key(mv, AddressModel::Raw(UNSET_ADDRESS))
                && forall|p: int, q: int, a: u16, b: u16| p < i ==> !overlap_at(mv, p, q, a, b)),
            has_key(mv, AddressModel::Raw(UNSET_ADDRESS)) ==> listed_unset_key(out@, o),
            forall|p: int, q: int, a: u16, b: u16|
                p < i && #[trigger] overlap_at(mv, p, q, a, b) ==> listed_overlap(out@, o, a, b),
        decreases m@.len() - i,
    {
        let mut j: usize = i + 1;
        while j < m.len()
            invariant
                i < m@.len(),
                i + 1 <= j <= m@.len(),
                mv == entry_views(m@),
                o == owner_view(*owner),
                out@.len() >= start.len(),
                out@.subrange(0, start.len() as int) == start,
                forall|k: int|
                    start.len() <= k < out@.len() ==> map_violation(#[trigger] out@[k], mv, o),
                (out@.len() == start.len()) == (!has_key(mv, AddressModel::Raw(UNSET_ADDRESS))
                    && (forall|p: int, q: int, a: u16, b: u16| p < i ==> !overlap_at(mv, p, q, a, b))
                    && (forall|q: int, a: u16, b: u16| q < j ==> !overlap_at(mv, i as int, q, a, b))),
                has_key(mv, AddressModel::Raw(UNSET_ADDRESS)) ==> listed_unset_key(out@, o),
                forall|p: int, q: int, a: u16, b: u16|
                    p < i && #[trigger] overlap_at(mv, p, q, a, b) ==> listed_overlap(out@, o, a, b),
                forall|q: int, a: u16, b: u16|
                    q < j && #[trigger] overlap_at(mv, i as int, q, a, b) ==> listed_overlap(
                        out@,
                        o,
                        a,
                        b,
                    ),
            decreases m@.len() - j,
        {
            assert(mv[i as int] == m@[i as int]@);
            assert(mv[j as int] == m@[j as int]@);
            if let (Address::Raw(a), Address::Raw(b)) = (&m[i].address, &m[j].address) {
                let la = m[i].assignment.capped_len();
                let lb = m[j].assignment.capped_len();
                if la > 0 && lb > 0 && (*a as u32) < (*b as u32) + lb && (*b as u32) < (*a as u32)
                    + la {
                    assert(overlap_at(mv, i as int, j as int, *a, *b));
                    let ghost prev = out@;
                    let v = Violation::MemoryOverlap(clone_owner(owner), *a, *b);
                    out.push(v);
                    assert(out@.subrange(0, start.len() as int) =~= prev.subrange(0, start.len() as int));
                    proof {
                        assert(out@.subrange(0, prev.len() as int) =~= prev);
                        lemma_listed_extends(prev, out@);
                        assert(out@[prev.len() as int] == v);
                        assert(listed_overlap(out@, o, *a, *b));
                    }
                } else {
                    assert forall|a2: u16, b2: u16| !overlap_at(mv, i as int, j as int, a2, b2) by {}
                }
            }
            j = j + 1;
        }
        i = i + 1;
    }
}

impl ResolvedConfig {
    /// Checks the invariants that execution relies on and collects every
    /// violation: the settings, the default memory, each test's memory and
    /// result memory, then each pair of tests with one name.
    pub fn validate(&self) -> (r: Result<(), ConfigError>)
        ensures
            r is Ok == is_valid(self@),
            r matches Err(e) ==> e matches ConfigError::ValidationFailure(v) && v@.len() > 0
                && forall|k: int| 0 <= k < v@.len() ==> violation_holds(#[trigger] v@[k], self@),
            r matches Err(ConfigError::ValidationFailure(v)) ==> all_listed(v@, self@),
    {
        let ghost c = self@;
        let mut out: Vec<Violation> = Vec::new();
        if let Address::Raw(x) = &self.default_config.caller {
            if *x == UNSET_ADDRESS {
                out.push(Violation::UnsetCaller);
                assert(out@[0] == Violation::UnsetCaller);
            }
        }
        let ghost s1 = out@;
        if !check_points(&self.default_config.crash) {
            out.push(Violation::UnsetCrashPoint);
            assert(out@[out@.len() - 1] == Violation::UnsetCrashPoint);
        }
        proof {
            assert(out@.subrange(0, s1.len() as int) =~= s1);
            lemma_listed_extends(s1, out@);
        }
        let ghost s2 = out@;
        if !check_points(&self.default_config.exit) {
            out.push(Violation::UnsetExitPoint);
            assert(out@[out@.len() - 1] == Violation::UnsetExitPoint);
        }
        proof {
            assert(out@.subrange(0, s2.len() as int) =~= s2);
            lemma_listed_extends(s2, out@);
        }
        let ghost before = out@;
        check_map(&self.default_memory, &None, &mut out);
        proof {
            lemma_listed_extends(before, out@);
        }
        assert forall|k: int| 0 <= k < out@.len() implies violation_holds(#[trigger] out@[k], c) by {
            if k < before.len() {
                assert(out@[k] == out@.subrange(0, before.len() as int)[k]);
            }
        }
        let mut i: usize = 0;
        while i < self.tests.len()
            invariant
                c == self@,
                i <= self.tests@.len(),
                forall|k: int| 0 <= k < out@.len() ==> violation_holds(#[trigger] out@[k], c),
                (out@.len() == 0) == (c.meta.caller != AddressModel::Raw(UNSET_ADDRESS) && points_ok(
                    c.meta.crash,
                ) && points_ok(c.meta.exit) && map_ok(c.memory) && forall|t: int|
                    0 <= t < i ==> test_ok(#[trigger] c.tests[t])),
                c.meta.caller == AddressModel::Raw(UNSET_ADDRESS) ==> listed(out@, Violation::UnsetCaller),
                !points_ok(c.meta.crash) ==> listed(out@, Violation::UnsetCrashPoint),
                !points_ok(c.meta.exit) ==> listed(out@, Violation::UnsetExitPoint),
                map_listed(out@, c.memory, None),
                forall|t: int| 0 <= t < i ==> test_listed(out@, #[trigger] c.tests[t]),
            decreases self.tests@.len() - i,
        {
            let test = &self.tests[i];
            assert(c.tests[i as int] == test@);
            let owner = Some(test.name.clone());
            let ghost b1 = out@;
            check_map(&test.initial_memory, &owner, &mut out);
            proof {
                lemma_listed_extends(b1, out@);
            }
            assert forall|k: int| 0 <= k < out@.len() implies violation_holds(#[trigger] out@[k], c) by {
                if k < b1.len() {
                    assert(out@[k] == out@.subrange(0, b1.len() as int)[k]);
                } else {
                    assert(map_violation(out@[k], c.tests[i as int].memory, Some(c.tests[i as int].name)));
                }
            }
            let ghost b2 = out@;
            if let Some(res) = &test.result {
                check_map(&res.resulting_memory, &owner, &mut out);
                proof {
                    lemma_listed_extends(b2, out@);
                }
                assert forall|k: int| 0 <= k < out@.len() implies violation_holds(#[trigger] out@[k], c) by {
                    if k < b2.len() {
                        assert(out@[k] == out@.subrange(0, b2.len() as int)[k]);
                    } else {
                        assert(map_violation(out@[k], res@.memory, Some(c.tests[i as int].name)));
                    }
                }
            }
            assert(test_listed(out@, c.tests[i as int]));
            i = i + 1;
        }
        let mut i: usize = 0;
        while i < self.tests.len()
            invariant
                c == self@,
                i <= self.tests@.len(),
                forall|k: int| 0 <= k < out@.len() ==> violation_holds(#[trigger] out@[k], c),
                (out@.len() == 0) == (c.meta.caller != AddressModel::Raw(UNSET_ADDRESS) && points_ok(
                    c.meta.crash,
                ) && points_ok(c.meta.exit) && map_ok(c.memory) && (forall|t: int|
                    0 <= t < c.tests.len() ==> test_ok(#[trigger] c.tests[t])) && forall|p: int, q: int|
                    0 <= p < i && p < q < c.tests.len() ==> c.tests[p].name != c.tests[q].name),
                c.meta.caller == AddressModel::Raw(UNSET_ADDRESS) ==> listed(out@, Violation::UnsetCaller),
                !points_ok(c.meta.crash) ==> listed(out@, Violation::UnsetCrashPoint),
                !points_ok(c.meta.exit) ==> listed(out@, Violation::UnsetExitPoint),
                map_listed(out@, c.memory, None),
                forall|t: int| 0 <= t < c.tests.len() ==> test_listed(out@, #[trigger] c.tests[t]),
                forall|p: int, q: int|
                    0 <= p < i && p < q < c.tests.len() && (#[trigger] c.tests[p]).name == (
                    #[trigger] c.tests[q]).name ==> listed_duplicate(out@, c.tests[p].name),
            decreases self.tests@.len() - i,
        {
            let mut j: usize = i + 1;
            while j < self.tests.len()
                invariant
                    c == self@,
                    i < self.tests@.len(),
                    i + 1 <= j <= self.tests@.len(),
                    forall|k: int| 0 <= k < out@.len() ==> violation_holds(#[trigger] out@[k], c),
                    (out@.len() == 0) == (c.meta.caller != AddressModel::Raw(UNSET_ADDRESS)
                        && points_ok(c.meta.crash) && points_ok(c.meta.exit) && map_ok(c.memory)
                        && (forall|t: int| 0 <= t < c.tests.len() ==> test_ok(#[trigger] c.tests[t]))
                        && (forall|p: int, q: int|
                        0 <= p < i && p < q < c.tests.len() ==> c.tests[p].name != c.tests[q].name)
                        && forall|q: int| i < q < j ==> c.tests[i as int].name != c.tests[q].name),
                    c.meta.caller == AddressModel::Raw(UNSET_ADDRESS) ==> listed(out@, Violation::UnsetCaller),
                    !points_ok(c.meta.crash) ==> listed(out@, Violation::UnsetCrashPoint),
                    !points_ok(c.meta.exit) ==> listed(out@, Violation::UnsetExitPoint),
                    map_listed(out@, c.memory, None),
                    forall|t: int| 0 <= t < c.tests.len() ==> test_listed(out@, #[trigger] c.tests[t]),
                    forall|p: int, q: int|
                        0 <= p < i && p < q < c.tests.len() && (#[trigger] c.tests[p]).name == (
                        #[trigger] c.tests[q]).name ==> listed_duplicate(out@, c.tests[p].name),
                    (exists|q: int| i < q < j && c.tests[i as int].name == c.tests[q].name)
                        ==> listed_duplicate(out@, c.tests[i as int].name),
                decreases self.tests@.len() - j,
            {
                assert(c.tests[i as int].name == self.tests@[i as int].name@);
                assert(c.tests[j as int].name == self.tests@[j as int].name@);
                if self.tests[i].name == self.tests[j].name {
                    let ghost prev = out@;
                    let v = Violation::DuplicateTestName(self.tests[i].name.clone());
                    out.push(v);
                    proof {
                        assert(out@.subrange(0, prev.len() as int) =~= prev);
                        lemma_listed_extends(prev, out@);
                        assert(out@[prev.len() as int] == v);
                        assert(listed_duplicate(out@, c.tests[i as int].name));
                    }
                }
                j = j + 1;
            }
            i = i + 1;
        }
        if out.len() == 0 {
            Ok(())
        } else {
            Err(ConfigError::ValidationFailure(out))
        }
    }
}

} // verus!
