//! The test-specification model: per-test checks, test data with optional
//! setup, groups of tests, and the parsing of register and memory keys.

use vstd::prelude::*;

use crate::emulator::{GPRegister, MemoryData, MemoryValue};
use crate::hex::{
    all_dec_digits, all_hex_digits, ascii_to_string, dec_repr, dec_val, fmt_dec_u64, hex_val,
    lemma_dec_repr_round_trip,
};
use crate::threadpool::Name;

verus! {

/// One declared expectation or setup entry: a register holding a word, or a
/// memory range holding a typed value.
#[derive(Debug)]
pub enum TestCheck {
    Register(GPRegister, u32),
    Memory(u32, MemoryData),
}

/// The mathematical value of a `TestCheck`.
#[verifier::ext_equal]
pub ghost enum CheckValue {
    Register(GPRegister, u32),
    Memory(u32, MemoryValue),
}

impl View for TestCheck {
    type V = CheckValue;

    open spec fn view(&self) -> CheckValue {
        match self {
            TestCheck::Register(r, v) => CheckValue::Register(*r, *v),
            TestCheck::Memory(a, d) => CheckValue::Memory(*a, d@),
        }
    }
}

impl Clone for TestCheck {
    /// A clone carries the same value.
    fn clone(&self) -> (r: Self)
        ensures
            r@ == self@,
    {
        match self {
            TestCheck::Register(r, v) => TestCheck::Register(*r, *v),
            TestCheck::Memory(a, d) => TestCheck::Memory(*a, d.clone()),
        }
    }
}

/// An ordered list of checks.
#[derive(Debug)]
pub struct TestChecks(pub Vec<TestCheck>);

/// The views of a sequence of checks.
pub open spec fn checks_view(s: Seq<TestCheck>) -> Seq<CheckValue> {
    s.map_values(|c: TestCheck| c@)
}

impl View for TestChecks {
    type V = Seq<CheckValue>;

    open spec fn view(&self) -> Seq<CheckValue> {
        checks_view(self.0@)
    }
}

impl Clone for TestChecks {
    /// A clone carries the same values.
    fn clone(&self) -> (r: Self)
        ensures
            r@ == self@,
    {
        let mut out: Vec<TestCheck> = Vec::new();
        let mut i: usize = 0;
        while i < self.0.len()
            invariant
                0 <= i <= self.0@.len(),
                checks_view(out@) =~= checks_view(self.0@.take(i as int)),
            decreases self.0@.len() - i,
        {
            out.push(self.0[i].clone());
            proof {
                assert(checks_view(self.0@.take(i + 1)) =~= checks_view(self.0@.take(i as int)).push(
                    self.0@[i as int]@,
                ));
                assert(checks_view(out@).last() == out@.last()@);
            }
            i = i + 1;
        }
        proof {
            assert(self.0@.take(self.0@.len() as int) =~= self.0@);
        }
        TestChecks(out)
    }
}

/// One test: either just expected checks, or a named setup-and-checks pair
/// with an optional entry point of its own.
#[derive(Debug)]
pub enum TestData {
    NoSetup(TestChecks),
    WithSetup {
        entrypoint: Option<String>,
        name: Option<String>,
        setup: TestChecks,
        checks: TestChecks,
    },
}

impl TestData {
    /// The display name a test declares for itself, if any.
    pub fn get_name(&self) -> (r: Option<&str>)
        ensures
            match self {
                TestData::NoSetup(_) => r is None,
                TestData::WithSetup { name, .. } => {
                    &&& r is Some <==> name is Some
                    &&& r is Some ==> r->0@ == name->0@
                },
            },
    {
        match self {
            TestData::NoSetup(_) => None,
            TestData::WithSetup { name, .. } => match name {
                Some(n) => Some(n.as_str()),
                None => None,
            },
        }
    }
}

/// One entry of a test group: a single test or a list of them.
#[derive(Debug)]
pub enum Test {
    Single(TestData),
    Multiple(Vec<TestData>),
}

/// All test groups, each group name with its entry, in file order.
#[derive(Debug)]
pub struct Tests(pub Vec<(String, Test)>);

/// The decimal numeral of a number, as characters.
pub open spec fn dec_chars(n: nat) -> Seq<char> {
    dec_repr(n).map_values(|b: u8| b as char)
}

/// The label of the tests of a group entry: a single test is `test_` plus
/// the group name; the tests of a list use their own declared name, or
/// `test_` plus the group name plus their index.
pub open spec fn single_label(group: Seq<char>) -> Seq<char> {
    "test_"@ + group
}

pub open spec fn multi_label(group: Seq<char>, td: TestData, index: nat) -> Seq<char> {
    match td {
        TestData::WithSetup { name: Some(n), .. } => n@,
        _ => "test_"@ + group + dec_chars(index),
    }
}

fn label_prefix(group: &String) -> (r: String)
    ensures
        r@ == "test_"@ + group@,
{
    let mut s = "test_".to_owned();
    s.append(group.as_str());
    s
}

fn index_chars(index: u64) -> (r: String)
    ensures
        r@ == dec_chars(index as nat),
{
    let digits = fmt_dec_u64(index);
    proof {
        lemma_dec_repr_round_trip(index as nat);
        assert forall|i: int| 0 <= i < digits@.len() implies #[trigger] digits@[i] < 128 by {
            assert(crate::hex::is_dec_digit(digits@[i]));
        }
    }
    ascii_to_string(digits)
}

impl Tests {
    /// Flattens the groups into named tests: a single test is labelled
    /// `test_` plus its group name; each test of a list keeps its declared
    /// name or is labelled `test_` plus group name plus index. Group order
    /// and in-group order are kept.
    pub fn get_tests(self) -> (r: Vec<(String, Vec<(String, TestData)>)>)
        ensures
            r@.len() == self.0@.len(),
            forall|k: int|
                0 <= k < r@.len() ==> (#[trigger] r@[k]).0@ == self.0@[k].0@ && (match self.0@[k].1 {
                    Test::Single(td) => r@[k].1@.len() == 1 && r@[k].1@[0].1 == td
                        && r@[k].1@[0].0@ == single_label(self.0@[k].0@),
                    Test::Multiple(tds) => r@[k].1@.len() == tds@.len() && (forall|j: int|
                        0 <= j < tds@.len() ==> (#[trigger] r@[k].1@[j]).1 == tds@[j]
                            && r@[k].1@[j].0@ == multi_label(self.0@[k].0@, tds@[j], j as nat)),
                }),
    {
        let ghost groups = self.0@;
        let mut rest = self.0;
        let mut out: Vec<(String, Vec<(String, TestData)>)> = Vec::new();
        while rest.len() > 0
            invariant
                out@.len() + rest@.len() == groups.len(),
                rest@ =~= groups.skip(out@.len() as int),
                forall|k: int|
                    0 <= k < out@.len() ==> (#[trigger] out@[k]).0@ == groups[k].0@ && (match
                    groups[k].1 {
                        Test::Single(td) => out@[k].1@.len() == 1 && out@[k].1@[0].1 == td
                            && out@[k].1@[0].0@ == single_label(groups[k].0@),
                        Test::Multiple(tds) => out@[k].1@.len() == tds@.len() && (forall|j: int|
                            0 <= j < tds@.len() ==> (#[trigger] out@[k].1@[j]).1 == tds@[j]
                                && out@[k].1@[j].0@ == multi_label(groups[k].0@, tds@[j], j as nat)),
                    }),
            decreases rest@.len(),
        {
            proof {
                assert(rest@[0] == groups[out@.len() as int]);
                assert(rest@.skip(1) =~= groups.skip(out@.len() as int + 1));
            }
            let (group, entry) = rest.remove(0);
            match entry {
                Test::Single(td) => {
                    let label = label_prefix(&group);
                    let mut inner: Vec<(String, TestData)> = Vec::new();
                    inner.push((label, td));
                    out.push((group, inner));
                },
                Test::Multiple(tds) => {
                    let ghost all_tds = tds@;
                    let mut tds = tds;
                    let mut inner: Vec<(String, TestData)> = Vec::new();
                    while tds.len() > 0
                        invariant
                            inner@.len() + tds@.len() == all_tds.len(),
                            tds@ =~= all_tds.skip(inner@.len() as int),
                            forall|j: int|
                                0 <= j < inner@.len() ==> (#[trigger] inner@[j]).1 == all_tds[j]
                                    && inner@[j].0@ == multi_label(group@, all_tds[j], j as nat),
                        decreases tds@.len(),
                    {
                        proof {
                            assert(tds@[0] == all_tds[inner@.len() as int]);
                            assert(tds@.skip(1) =~= all_tds.skip(inner@.len() as int + 1));
                        }
                        let index = inner.len();
                        let td = tds.remove(0);
                        let label: String = match &td {
                            TestData::WithSetup { name: Some(n), .. } => n.clone(),
                            _ => {
                                let mut s = label_prefix(&group);
                                let idx = index_chars(index as u64);
                                s.append(idx.as_str());
                                s
                            },
                        };
                        inner.push((label, td));
                    }
                    out.push((group, inner));
                },
            }
        }
        proof {
            assert(out@.len() == groups.len());
        }
        out
    }
}

/// What a specification key names: a register or a memory address.
#[derive(Debug, Clone, Copy, PartialEq, Eq)]
pub enum CheckKey {
    Reg(GPRegister),
    Mem(u32),
}

/// The number a key's numeral stands for: `0x`-prefixed keys read as
/// hexadecimal, all others as decimal.
pub open spec fn spec_hex_or_dec(s: Seq<u8>) -> Option<u32> {
    if s.len() >= 2 && s[0] == 48 && s[1] == 120 {
        let h = s.skip(2);
        if h.len() > 0 && all_hex_digits(h) && hex_val(h) <= u32::MAX {
            Some(hex_val(h) as u32)
        } else {
            None
        }
    } else {
        if s.len() > 0 && all_dec_digits(s) && dec_val(s) <= u32::MAX {
            Some(dec_val(s) as u32)
        } else {
            None
        }
    }
}

/// Reads a decimal or `0x`-prefixed hexadecimal numeral.
pub fn try_parse_hex_or_dec(s: &[u8]) -> (r: Option<u32>)
    ensures
        r == spec_hex_or_dec(s@),
{
    if s.len() >= 2 && s[0] == 48 && s[1] == 120 {
        let h = &s[2..s.len()];
        proof {
            assert(h@ =~= s@.skip(2));
        }
        crate::hex::parse_hex_u32(h)
    } else {
        crate::hex::parse_dec_u32(s)
    }
}

/// What a specification key means: `r<N>` or `R<N>` names a register, and
/// the register index must be 0 to 31; `m[<numeral>]` or `M[<numeral>]`
/// names a memory address, decimal or `0x`-prefixed hexadecimal, where the
/// bracketing is one leading and one trailing byte around the numeral.
/// Anything else is a specification error.
pub open spec fn spec_check_key(s: Seq<u8>) -> Option<CheckKey> {
    if s.len() >= 1 && (s[0] == 114 || s[0] == 82) {
        let d = s.skip(1);
        if d.len() > 0 && all_dec_digits(d) && dec_val(d) < 32 {
            Some(CheckKey::Reg(GPRegister::spec_new(dec_val(d) as u8)))
        } else {
            None
        }
    } else if s.len() >= 3 && (s[0] == 109 || s[0] == 77) {
        match spec_hex_or_dec(s.subrange(2, s.len() - 1)) {
            Some(a) => Some(CheckKey::Mem(a)),
            None => None,
        }
    } else {
        None
    }
}

/// Parses one specification key.
pub fn parse_check_key(key: &[u8]) -> (r: Option<CheckKey>)
    ensures
        r == spec_check_key(key@),
        r matches Some(CheckKey::Reg(g)) ==> g.wf(),
{
    if key.len() >= 1 && (key[0] == 114 || key[0] == 82) {
        let d = &key[1..key.len()];
        proof {
            assert(d@ =~= key@.skip(1));
        }
        match crate::hex::parse_dec_u8(d) {
            Some(n) => {
                if n < 32 {
                    match GPRegister::new(n) {
                        Some(r) => Some(CheckKey::Reg(r)),
                        None => None,
                    }
                } else {
                    None
                }
            },
            None => {
                proof {
                    if d@.len() > 0 && all_dec_digits(d@) && dec_val(d@) < 32 {
                        assert(dec_val(d@) <= u8::MAX);
                    }
                }
                None
            },
        }
    } else if key.len() >= 3 && (key[0] == 109 || key[0] == 77) {
        let inner = &key[2..key.len() - 1];
        proof {
            assert(inner@ =~= key@.subrange(2, key@.len() - 1));
        }
        match try_parse_hex_or_dec(inner) {
            Some(a) => Some(CheckKey::Mem(a)),
            None => None,
        }
    } else {
        None
    }
}

impl Name for (usize, String, String, TestData) {
    /// The display name of a job: its group and test name joined by `/`.
    fn name(&self) -> String {
        let mut s = self.1.clone();
        s.append("/");
        s.append(self.2.as_str());
        s
    }
}

} // verus!
