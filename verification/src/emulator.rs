//! The emulator collaborator's side of the library: general-purpose register
//! names, typed memory values and their little-endian word codec, and the
//! scripted console commands of one emulator session.

use vstd::prelude::*;

use crate::hex::{dec_repr, fmt_dec_u32, fmt_hex8_u32, fmt_hex_u32, hex_fixed, hex_repr};

verus! {

/// A general-purpose register index. The target machine has 32 of them.
#[derive(Clone, Copy, Debug, PartialEq, Eq, Hash, PartialOrd, Ord)]
pub struct GPRegister(u8);

impl GPRegister {
    /// The register's index, between 0 and 31.
    pub closed spec fn spec_index(self) -> u8 {
        self.0
    }

    /// Every register built by `new` satisfies this bound.
    pub open spec fn wf(self) -> bool {
        self.spec_index() < 32
    }

    /// The register with a given index, as a mathematical value.
    pub closed spec fn spec_new(n: u8) -> GPRegister {
        GPRegister(n)
    }

    /// The spec-level constructor and the index accessor agree.
    pub broadcast proof fn lemma_spec_new_index(n: u8)
        ensures
            (#[trigger] GPRegister::spec_new(n)).spec_index() == n,
    {
    }

    /// Accepts exactly the indices 0 to 31.
    pub fn new(n: u8) -> (r: Option<Self>)
        ensures
            r is Some <==> n < 32,
            r is Some ==> r->0 == GPRegister::spec_new(n) && r->0.spec_index() == n && r->0.wf(),
    {
        if n < 32 {
            Some(GPRegister(n))
        } else {
            None
        }
    }

    pub fn index(&self) -> (r: u8)
        ensures
            r == self.spec_index(),
    {
        self.0
    }
}

/// One scripted emulator operation performed before execution starts.
#[derive(Debug)]
pub enum Operation {
    /// Set a register to a word value.
    SetReg(GPRegister, u32),
    /// Store a run of words starting at a (word-aligned) address.
    SetMem(u32, Vec<u32>),
}

/// The mathematical value of an `Operation`.
#[verifier::ext_equal]
pub ghost enum OperationValue {
    SetReg(GPRegister, u32),
    SetMem(u32, Seq<u32>),
}

impl View for Operation {
    type V = OperationValue;

    open spec fn view(&self) -> OperationValue {
        match self {
            Operation::SetReg(r, v) => OperationValue::SetReg(*r, *v),
            Operation::SetMem(a, ws) => OperationValue::SetMem(*a, ws@),
        }
    }
}

/// The views of a sequence of operations.
pub open spec fn ops_view(s: Seq<Operation>) -> Seq<OperationValue> {
    s.map_values(|o: Operation| o@)
}

/// A typed memory value: what a test writes into or expects from memory.
#[derive(Debug)]
pub enum MemoryData {
    /// An arbitrary run of bytes.
    Bytes(Vec<u8>),
    Byte(u8),
    HalfWord(u16),
    Word(u32),
    DoubleWord(u64),
    /// A byte string that is stored with a terminating NUL added.
    Text(Vec<u8>),
}

/// The mathematical value of a `MemoryData`: the same variants over
/// sequences instead of vectors.
#[verifier::ext_equal]
pub ghost enum MemoryValue {
    Bytes(Seq<u8>),
    Byte(u8),
    HalfWord(u16),
    Word(u32),
    DoubleWord(u64),
    Text(Seq<u8>),
}

impl View for MemoryData {
    type V = MemoryValue;

    open spec fn view(&self) -> MemoryValue {
        match self {
            MemoryData::Bytes(b) => MemoryValue::Bytes(b@),
            MemoryData::Byte(x) => MemoryValue::Byte(*x),
            MemoryData::HalfWord(x) => MemoryValue::HalfWord(*x),
            MemoryData::Word(x) => MemoryValue::Word(*x),
            MemoryData::DoubleWord(x) => MemoryValue::DoubleWord(*x),
            MemoryData::Text(t) => MemoryValue::Text(t@),
        }
    }
}

/// A vector copy with the same bytes.
pub fn clone_bytes(b: &Vec<u8>) -> (r: Vec<u8>)
    ensures
        r@ == b@,
{
    let r = b.clone();
    proof {
        assert forall|i: int| 0 <= i < b@.len() implies r@[i] == b@[i] by {}
        assert(r@ =~= b@);
    }
    r
}

impl Clone for MemoryData {
    /// A clone carries the same value.
    fn clone(&self) -> (r: Self)
        ensures
            r@ == self@,
    {
        match self {
            MemoryData::Bytes(b) => MemoryData::Bytes(clone_bytes(b)),
            MemoryData::Byte(x) => MemoryData::Byte(*x),
            MemoryData::HalfWord(x) => MemoryData::HalfWord(*x),
            MemoryData::Word(x) => MemoryData::Word(*x),
            MemoryData::DoubleWord(x) => MemoryData::DoubleWord(*x),
            MemoryData::Text(t) => MemoryData::Text(clone_bytes(t)),
        }
    }
}

/// The word assembled from four little-endian bytes.
pub open spec fn le_word(b0: u8, b1: u8, b2: u8, b3: u8) -> u32 {
    (b0 as u32) | (b1 as u32) << 8 | (b2 as u32) << 16 | (b3 as u32) << 24
}

/// A byte of `s`, or zero past its end.
pub open spec fn byte_or_zero(s: Seq<u8>, i: int) -> u8 {
    if 0 <= i < s.len() {
        s[i]
    } else {
        0
    }
}

/// The word assembled from the first four bytes of `s`, zero-padded.
pub open spec fn word_of(s: Seq<u8>) -> u32 {
    le_word(byte_or_zero(s, 0), byte_or_zero(s, 1), byte_or_zero(s, 2), byte_or_zero(s, 3))
}

/// A byte sequence packed into little-endian words of four bytes each,
/// the last word zero-padded.
pub open spec fn le_words(s: Seq<u8>) -> Seq<u32>
    decreases s.len(),
{
    if s.len() == 0 {
        Seq::empty()
    } else if s.len() <= 4 {
        seq![word_of(s)]
    } else {
        seq![word_of(s.take(4))] + le_words(s.skip(4))
    }
}

/// The four little-endian bytes of a word.
pub open spec fn word_le_bytes(w: u32) -> Seq<u8> {
    seq![(w & 0xff) as u8, ((w >> 8) & 0xff) as u8, ((w >> 16) & 0xff) as u8, (
    (w >> 24) & 0xff) as u8]
}

/// A word sequence flattened to its little-endian bytes.
pub open spec fn words_to_bytes(ws: Seq<u32>) -> Seq<u8>
    decreases ws.len(),
{
    if ws.len() == 0 {
        Seq::empty()
    } else {
        word_le_bytes(ws[0]) + words_to_bytes(ws.skip(1))
    }
}

pub broadcast proof fn lemma_words_to_bytes_len(ws: Seq<u32>)
    ensures
        (#[trigger] words_to_bytes(ws)).len() == 4 * ws.len(),
    decreases ws.len(),
{
    if ws.len() > 0 {
        lemma_words_to_bytes_len(ws.skip(1));
    }
}

/// Law: packing bytes into words and flattening the words again gives back
/// the bytes, padded with zeros up to the next word boundary.
pub proof fn lemma_le_words_round_trip(s: Seq<u8>)
    ensures
        words_to_bytes(le_words(s)).len() == 4 * le_words(s).len(),
        s.len() <= words_to_bytes(le_words(s)).len() < s.len() + 4,
        forall|i: int|
            0 <= i < words_to_bytes(le_words(s)).len() ==> words_to_bytes(le_words(s))[i]
                == byte_or_zero(s, i),
    decreases s.len(),
{
    lemma_words_to_bytes_len(le_words(s));
    if s.len() == 0 {
    } else if s.len() <= 4 {
        let w = word_of(s);
        let b0 = byte_or_zero(s, 0);
        let b1 = byte_or_zero(s, 1);
        let b2 = byte_or_zero(s, 2);
        let b3 = byte_or_zero(s, 3);
        assert((le_word(b0, b1, b2, b3) & 0xff) as u8 == b0 && ((le_word(b0, b1, b2, b3) >> 8)
            & 0xff) as u8 == b1 && ((le_word(b0, b1, b2, b3) >> 16) & 0xff) as u8 == b2 && ((
        le_word(b0, b1, b2, b3) >> 24) & 0xff) as u8 == b3) by (bit_vector);
        assert(words_to_bytes(le_words(s)) =~= word_le_bytes(w));
    } else {
        lemma_le_words_round_trip(s.skip(4));
        let w = word_of(s.take(4));
        let b0 = byte_or_zero(s, 0);
        let b1 = byte_or_zero(s, 1);
        let b2 = byte_or_zero(s, 2);
        let b3 = byte_or_zero(s, 3);
        assert(byte_or_zero(s.take(4), 0) == b0 && byte_or_zero(s.take(4), 1) == b1 && byte_or_zero(
            s.take(4),
            2,
        ) == b2 && byte_or_zero(s.take(4), 3) == b3);
        assert((le_word(b0, b1, b2, b3) & 0xff) as u8 == b0 && ((le_word(b0, b1, b2, b3) >> 8)
            & 0xff) as u8 == b1 && ((le_word(b0, b1, b2, b3) >> 16) & 0xff) as u8 == b2 && ((
        le_word(b0, b1, b2, b3) >> 24) & 0xff) as u8 == b3) by (bit_vector);
        let ws = le_words(s);
        assert(ws == seq![w] + le_words(s.skip(4)));
        assert(ws[0] == w);
        assert(ws.skip(1) =~= le_words(s.skip(4)));
        assert(words_to_bytes(le_words(s)) =~= word_le_bytes(w) + words_to_bytes(
            le_words(s.skip(4)),
        ));
        assert forall|i: int| 0 <= i < words_to_bytes(le_words(s)).len() implies words_to_bytes(
            le_words(s),
        )[i] == byte_or_zero(s, i) by {
            if i >= 4 {
                assert(words_to_bytes(le_words(s))[i] == words_to_bytes(le_words(s.skip(4)))[i
                    - 4]);
                assert(byte_or_zero(s.skip(4), i - 4) == byte_or_zero(s, i));
            }
        }
    }
}

/// Packing splits over a word-aligned boundary.
pub proof fn lemma_le_words_append(s: Seq<u8>, t: Seq<u8>)
    requires
        s.len() % 4 == 0,
        t.len() > 0,
    ensures
        le_words(s + t) == le_words(s) + le_words(t),
    decreases s.len(),
{
    if s.len() == 0 {
        assert(s + t =~= t);
        assert(le_words(s) + le_words(t) =~= le_words(t));
    } else {
        let u = s + t;
        assert(u.len() > 4);
        assert(u.take(4) =~= s.take(4));
        assert(u.skip(4) =~= s.skip(4) + t);
        lemma_le_words_append(s.skip(4), t);
        assert(s.len() > 4 ==> le_words(s) == seq![word_of(s.take(4))] + le_words(s.skip(4)));
        if s.len() == 4 {
            assert(s.skip(4) =~= Seq::<u8>::empty());
            assert(le_words(s) =~= seq![word_of(s.take(4))]);
            assert(s.take(4) =~= s);
        }
        assert(le_words(u) =~= le_words(s) + le_words(t));
    }
}

fn word_from_le_bytes(b0: u8, b1: u8, b2: u8, b3: u8) -> (r: u32)
    ensures
        r == le_word(b0, b1, b2, b3),
{
    (b0 as u32) | (b1 as u32) << 8 | (b2 as u32) << 16 | (b3 as u32) << 24
}

/// Packs a byte sequence into little-endian words, four bytes per word,
/// zero-padding the last word.
fn pack_le_words(b: &[u8]) -> (r: Vec<u32>)
    ensures
        r@ == le_words(b@),
{
    let mut out: Vec<u32> = Vec::new();
    let mut i: usize = 0;
    while i < b.len()
        invariant
            0 <= i <= b@.len(),
            i % 4 == 0 || i == b@.len(),
            out@ == le_words(b@.take(i as int)),
        decreases b@.len() - i,
    {
        let b0 = b[i];
        let b1 = if i + 1 < b.len() {
            b[i + 1]
        } else {
            0
        };
        let b2 = if i + 2 < b.len() {
            b[i + 2]
        } else {
            0
        };
        let b3 = if i + 3 < b.len() {
            b[i + 3]
        } else {
            0
        };
        let w = word_from_le_bytes(b0, b1, b2, b3);
        let k: usize = if b.len() - i < 4 {
            b.len() - i
        } else {
            4
        };
        proof {
            let chunk = b@.subrange(i as int, i + k);
            assert(b@.take(i + k) =~= b@.take(i as int) + chunk);
            lemma_le_words_append(b@.take(i as int), chunk);
            assert(byte_or_zero(chunk, 0) == b0 && byte_or_zero(chunk, 1) == b1 && byte_or_zero(
                chunk,
                2,
            ) == b2 && byte_or_zero(chunk, 3) == b3);
            assert(le_words(chunk) =~= seq![word_of(chunk)]);
            assert(out@.push(w) =~= le_words(b@.take(i as int)) + le_words(chunk));
        }
        out.push(w);
        i = i + k;
    }
    proof {
        assert(b@.take(b@.len() as int) =~= b@);
    }
    out
}

/// The canonical byte length of a memory value: what one emulator memory
/// observation of it must cover.
pub open spec fn value_len(v: MemoryValue) -> nat {
    match v {
        MemoryValue::Bytes(b) => b.len(),
        MemoryValue::Byte(_) => 1,
        MemoryValue::HalfWord(_) => 2,
        MemoryValue::Word(_) => 4,
        MemoryValue::DoubleWord(_) => 8,
        MemoryValue::Text(t) => t.len() + 1,
    }
}

/// The store-image of a memory value as little-endian words, where one
/// exists: single bytes and half-words have none.
pub open spec fn value_words(v: MemoryValue) -> Option<Seq<u32>> {
    match v {
        MemoryValue::Bytes(b) => Some(le_words(b)),
        MemoryValue::Word(w) => Some(seq![w]),
        MemoryValue::DoubleWord(d) => Some(
            seq![(d & 0xffff_ffff) as u32, ((d >> 32) & 0xffff_ffff) as u32],
        ),
        MemoryValue::Text(t) => Some(le_words(t + seq![0u8])),
        MemoryValue::Byte(_) => None,
        MemoryValue::HalfWord(_) => None,
    }
}

impl MemoryData {
    /// The canonical byte length of the value.
    pub open spec fn spec_len_real(self) -> nat {
        value_len(self@)
    }

    /// The byte length fits the 32-bit address space.
    pub open spec fn len_fits(self) -> bool {
        self.spec_len_real() <= u32::MAX
    }

    /// The canonical byte length, as the emulator query sizing needs it.
    pub fn len_real(&self) -> (r: u32)
        requires
            self.len_fits(),
        ensures
            r == self.spec_len_real(),
    {
        match self {
            MemoryData::Bytes(b) => b.len() as u32,
            MemoryData::Byte(_) => 1,
            MemoryData::HalfWord(_) => 2,
            MemoryData::Word(_) => 4,
            MemoryData::DoubleWord(_) => 8,
            MemoryData::Text(t) => (t.len() as u32) + 1,
        }
    }

    /// The value's store-image as little-endian words, where one exists.
    /// Bytes and text pack four bytes to a word (text gains a terminating
    /// NUL); a word stands alone; a double word is split low word first.
    /// Single bytes and half-words have no word image and are refused.
    pub fn words(&self) -> (r: Result<Vec<u32>, ()>)
        ensures
            match value_words(self@) {
                Some(ws) => r is Ok && r->Ok_0@ == ws,
                None => r == Err::<Vec<u32>, ()>(()),
            },
    {
        match self {
            MemoryData::Bytes(b) => Ok(pack_le_words(b.as_slice())),
            MemoryData::Word(w) => {
                let mut v: Vec<u32> = Vec::new();
                v.push(*w);
                Ok(v)
            },
            MemoryData::DoubleWord(d) => {
                let lo: u32 = (*d & 0xffff_ffff) as u32;
                let hi: u32 = ((*d >> 32) & 0xffff_ffff) as u32;
                let mut v: Vec<u32> = Vec::new();
                v.push(lo);
                v.push(hi);
                Ok(v)
            },
            MemoryData::Text(t) => {
                let mut all: Vec<u8> = t.clone();
                all.push(0);
                proof {
                    assert(all@ =~= t@ + seq![0u8]);
                }
                Ok(pack_le_words(all.as_slice()))
            },
            MemoryData::Byte(_) => Err(()),
            MemoryData::HalfWord(_) => Err(()),
        }
    }
}

impl PartialEq for MemoryData {
    /// Structural equality: same variant, equal payload.
    fn eq(&self, other: &Self) -> (r: bool) {
        match (self, other) {
            (MemoryData::Bytes(a), MemoryData::Bytes(b)) => eq_bytes(a, b),
            (MemoryData::Byte(a), MemoryData::Byte(b)) => a == b,
            (MemoryData::HalfWord(a), MemoryData::HalfWord(b)) => a == b,
            (MemoryData::Word(a), MemoryData::Word(b)) => a == b,
            (MemoryData::DoubleWord(a), MemoryData::DoubleWord(b)) => a == b,
            (MemoryData::Text(a), MemoryData::Text(b)) => eq_bytes(a, b),
            _ => false,
        }
    }
}

impl vstd::std_specs::cmp::PartialEqSpecImpl for MemoryData {
    open spec fn obeys_eq_spec() -> bool {
        true
    }

    open spec fn eq_spec(&self, other: &Self) -> bool {
        self@ == other@
    }
}

impl Eq for MemoryData {

}

/// Whether a run of store-words starting at an address stays inside the
/// 32-bit address space.
pub open spec fn span_fits(addr: u32, ws: Seq<u32>) -> bool {
    ws.len() == 0 || addr + 4 * (ws.len() - 1) <= u32::MAX
}

/// Every word store of the operations stays inside the address space.
pub open spec fn ops_fit(ops: Seq<OperationValue>) -> bool {
    forall|i: int|
        0 <= i < ops.len() ==> ((#[trigger] ops[i]) matches OperationValue::SetMem(a, ws)
            ==> span_fits(a, ws))
}

/// The scripted command line that sets one register: `r <index> 0x<hex>`.
pub open spec fn reg_line(r: GPRegister, v: u32) -> Seq<u8> {
    seq![114u8, 32u8] + dec_repr(r.spec_index() as nat) + seq![32u8, 48u8, 120u8] + hex_repr(
        v as nat,
    )
}

/// The scripted command line that stores one word: `I <addr> 0x<hex8>`.
pub open spec fn store_line(addr: u32, w: u32) -> Seq<u8> {
    seq![73u8, 32u8] + dec_repr(addr as nat) + seq![32u8, 48u8, 120u8] + hex_fixed(w as nat, 8)
}

/// The scripted command line that requests one memory dump:
/// `v <addr> <word-count>`, the count covering the requested length.
pub open spec fn request_line(addr: u32, len: u32) -> Seq<u8> {
    seq![118u8, 32u8] + dec_repr(addr as nat) + seq![32u8] + dec_repr(
        (len / 4 + (if len % 4 > 0 {
            1u32
        } else {
            0u32
        })) as nat,
    )
}

/// The command lines one operation scripts: one line per register store,
/// one line per stored word at its own address.
pub open spec fn op_lines(op: OperationValue) -> Seq<Seq<u8>> {
    match op {
        OperationValue::SetReg(r, v) => seq![reg_line(r, v)],
        OperationValue::SetMem(a, ws) => Seq::new(
            ws.len(),
            |i: int| store_line((a + 4 * i) as u32, ws[i]),
        ),
    }
}

/// The command lines a run of operations scripts, in order.
pub open spec fn ops_lines(ops: Seq<OperationValue>) -> Seq<Seq<u8>>
    decreases ops.len(),
{
    if ops.len() == 0 {
        Seq::empty()
    } else {
        ops_lines(ops.drop_last()) + op_lines(ops.last())
    }
}

/// How many acknowledgement lines one operation adds to the transcript:
/// a register store answers with eleven lines, each word store with one.
pub open spec fn op_skip(op: OperationValue) -> nat {
    match op {
        OperationValue::SetReg(_, _) => 11,
        OperationValue::SetMem(_, ws) => ws.len(),
    }
}

/// The acknowledgement lines a run of operations adds, in total.
pub open spec fn ops_skip(ops: Seq<OperationValue>) -> nat
    decreases ops.len(),
{
    if ops.len() == 0 {
        0
    } else {
        ops_skip(ops.drop_last()) + op_skip(ops.last())
    }
}

proof fn lemma_ops_skip_take(ops: Seq<OperationValue>, i: int)
    requires
        0 <= i <= ops.len(),
    ensures
        ops_skip(ops.take(i)) <= ops_skip(ops),
    decreases ops.len() - i,
{
    if i < ops.len() {
        lemma_ops_skip_take(ops, i + 1);
        assert(ops.take(i + 1).drop_last() =~= ops.take(i));
        assert(ops_skip(ops.take(i + 1)) == ops_skip(ops.take(i)) + op_skip(ops[i]));
    } else {
        assert(ops.take(ops.len() as int) =~= ops);
    }
}

/// The whole scripted session: every operation's lines, then `e` to
/// execute, one dump request per memory observation, and `q` to quit.
pub open spec fn script_spec(ops: Seq<OperationValue>, mem: Seq<(u32, u32)>) -> Seq<Seq<u8>> {
    ops_lines(ops) + seq![seq![101u8]] + Seq::new(
        mem.len(),
        |i: int| request_line(mem[i].0, mem[i].1),
    ) + seq![seq![113u8]]
}

/// The views of a sequence of byte-vector lines.
pub open spec fn vecs_view(lines: Seq<Vec<u8>>) -> Seq<Seq<u8>> {
    lines.map_values(|l: Vec<u8>| l@)
}

fn push_reg_line(out: &mut Vec<Vec<u8>>, r: &GPRegister, v: u32)
    ensures
        final(out)@.len() == old(out)@.len() + 1,
        final(out)@.drop_last() == old(out)@,
        final(out)@.last()@ == reg_line(*r, v),
{
    let mut line: Vec<u8> = Vec::new();
    line.push(114);
    line.push(32);
    let mut idx = fmt_dec_u32(r.index() as u32);
    line.append(&mut idx);
    line.push(32);
    line.push(48);
    line.push(120);
    let mut hx = fmt_hex_u32(v);
    line.append(&mut hx);
    proof {
        assert(line@ =~= reg_line(*r, v));
    }
    out.push(line);
    proof {
        assert(final(out)@.drop_last() =~= old(out)@);
    }
}

fn push_store_line(out: &mut Vec<Vec<u8>>, addr: u32, w: u32)
    ensures
        final(out)@.len() == old(out)@.len() + 1,
        final(out)@.drop_last() == old(out)@,
        final(out)@.last()@ == store_line(addr, w),
{
    let mut line: Vec<u8> = Vec::new();
    line.push(73);
    line.push(32);
    let mut a = fmt_dec_u32(addr);
    line.append(&mut a);
    line.push(32);
    line.push(48);
    line.push(120);
    let mut hx = fmt_hex8_u32(w);
    line.append(&mut hx);
    proof {
        assert(line@ =~= store_line(addr, w));
    }
    out.push(line);
    proof {
        assert(final(out)@.drop_last() =~= old(out)@);
    }
}

/// Writes out the scripted command lines of one emulator session, and the
/// total number of acknowledgement lines the operations will add to the
/// transcript before the execution banner.
pub fn script_lines(operations: &Vec<Operation>, memory_res: &Vec<(u32, u32)>) -> (r: (
    Vec<Vec<u8>>,
    usize,
))
    requires
        ops_fit(ops_view(operations@)),
        ops_skip(ops_view(operations@)) <= usize::MAX,
    ensures
        vecs_view(r.0@) == script_spec(ops_view(operations@), memory_res@),
        r.1 == ops_skip(ops_view(operations@)),
{
    let ghost ov = ops_view(operations@);
    let mut out: Vec<Vec<u8>> = Vec::new();
    let mut skip: usize = 0;
    let mut i: usize = 0;
    proof {
        assert(ov.take(0) =~= Seq::<OperationValue>::empty());
        assert(vecs_view(out@) =~= Seq::<Seq<u8>>::empty());
        assert(ops_lines(ov.take(0)) =~= Seq::<Seq<u8>>::empty());
    }
    while i < operations.len()
        invariant
            0 <= i <= operations@.len(),
            ov == ops_view(operations@),
            ops_fit(ov),
            ops_skip(ov) <= usize::MAX,
            vecs_view(out@) == ops_lines(ov.take(i as int)),
            skip == ops_skip(ov.take(i as int)),
        decreases operations@.len() - i,
    {
        proof {
            assert(ov.take(i + 1).drop_last() =~= ov.take(i as int));
            assert(ov.take(i + 1).last() == ov[i as int]);
            assert(ov[i as int] == operations@[i as int]@);
            lemma_ops_skip_take(ov, i + 1);
        }
        match &operations[i] {
            Operation::SetReg(r, v) => {
                push_reg_line(&mut out, r, *v);
                proof {
                    assert(vecs_view(out@) =~= ops_lines(ov.take(i as int)) + op_lines(
                        ov[i as int],
                    ));
                }
                skip = skip + 11;
            },
            Operation::SetMem(a, ws) => {
                let ghost prevlines = vecs_view(out@);
                let mut j: usize = 0;
                while j < ws.len()
                    invariant
                        0 <= j <= ws@.len(),
                        span_fits(*a, ws@),
                        vecs_view(out@) =~= prevlines + Seq::new(
                            j as nat,
                            |k: int| store_line((*a + 4 * k) as u32, ws@[k]),
                        ),
                    decreases ws@.len() - j,
                {
                    let addr = *a + 4 * (j as u32);
                    push_store_line(&mut out, addr, ws[j]);
                    proof {
                        assert(vecs_view(out@).drop_last() =~= vecs_view(out@.drop_last()));
                        assert(vecs_view(out@) =~= (prevlines + Seq::new(
                            j as nat,
                            |k: int| store_line((*a + 4 * k) as u32, ws@[k]),
                        )).push(store_line(addr, ws@[j as int])));
                        assert((prevlines + Seq::new(
                            j as nat,
                            |k: int| store_line((*a + 4 * k) as u32, ws@[k]),
                        )).push(store_line(addr, ws@[j as int])) =~= prevlines + Seq::new(
                            (j + 1) as nat,
                            |k: int| store_line((*a + 4 * k) as u32, ws@[k]),
                        ));
                    }
                    j = j + 1;
                }
                proof {
                    assert(Seq::new(ws@.len(), |k: int| store_line((*a + 4 * k) as u32, ws@[k]))
                        =~= op_lines(ov[i as int]));
                    assert(vecs_view(out@) =~= ops_lines(ov.take(i as int)) + op_lines(
                        ov[i as int],
                    ));
                    assert(ops_skip(ov.take(i + 1)) == skip + ws@.len());
                }
                skip = skip + ws.len();
            },
        }
        proof {
            assert(ops_lines(ov.take(i + 1)) == ops_lines(ov.take(i as int)) + op_lines(
                ov[i as int],
            ));
        }
        i = i + 1;
    }
    proof {
        assert(ov.take(ov.len() as int) =~= ov);
    }
    let mut e_line: Vec<u8> = Vec::new();
    e_line.push(101);
    let ghost after_ops = vecs_view(out@);
    out.push(e_line);
    proof {
        assert(vecs_view(out@) =~= after_ops + seq![seq![101u8]]);
    }
    let mut k: usize = 0;
    let ghost with_e = vecs_view(out@);
    while k < memory_res.len()
        invariant
            0 <= k <= memory_res@.len(),
            vecs_view(out@) =~= with_e + Seq::new(
                k as nat,
                |i: int| request_line(memory_res@[i].0, memory_res@[i].1),
            ),
        decreases memory_res@.len() - k,
    {
        let (addr, len) = (memory_res[k].0, memory_res[k].1);
        let words: u32 = len / 4 + (if len % 4 > 0 {
            1
        } else {
            0
        });
        let mut line: Vec<u8> = Vec::new();
        line.push(118);
        line.push(32);
        let mut a = fmt_dec_u32(addr);
        line.append(&mut a);
        line.push(32);
        let mut c = fmt_dec_u32(words);
        line.append(&mut c);
        proof {
            assert(line@ =~= request_line(addr, len));
        }
        let ghost prev = vecs_view(out@);
        out.push(line);
        proof {
            assert(vecs_view(out@) =~= prev.push(request_line(addr, len)));
            assert(prev.push(request_line(addr, len)) =~= with_e + Seq::new(
                (k + 1) as nat,
                |i: int| request_line(memory_res@[i].0, memory_res@[i].1),
            ));
        }
        k = k + 1;
    }
    let mut q_line: Vec<u8> = Vec::new();
    q_line.push(113);
    let ghost before_q = vecs_view(out@);
    out.push(q_line);
    proof {
        assert(vecs_view(out@) =~= before_q + seq![seq![113u8]]);
        assert(vecs_view(out@) =~= script_spec(ov, memory_res@));
    }
    (out, skip)
}

/// Builds the emulator's command line: the emulator binary, its series
/// file, and the test binary to run.
#[derive(Debug)]
pub struct EmulatorBuilder {
    pub emu: String,
    pub serie: String,
    pub binfile: Option<String>,
}

impl Clone for EmulatorBuilder {
    /// A clone carries the same paths.
    fn clone(&self) -> (r: Self)
        ensures
            r == *self,
    {
        EmulatorBuilder {
            emu: self.emu.clone(),
            serie: self.serie.clone(),
            binfile: match &self.binfile {
                Some(b) => Some(b.clone()),
                None => None,
            },
        }
    }
}

/// An emulator invocation: the program and its arguments, ready to spawn
/// with piped input and output.
#[derive(Debug)]
pub struct Emulator {
    pub program: String,
    pub args: Vec<String>,
}

impl EmulatorBuilder {
    pub fn new(emu: &str, serie: &str) -> (r: Self)
        ensures
            r.emu@ == emu@,
            r.serie@ == serie@,
            r.binfile is None,
    {
        EmulatorBuilder { emu: emu.to_owned(), serie: serie.to_owned(), binfile: None }
    }

    /// Sets the test binary in place.
    pub fn binfile_mut(&mut self, binfile: String)
        ensures
            *final(self) == (EmulatorBuilder { binfile: Some(binfile), ..*old(self) }),
    {
        self.binfile = Some(binfile);
    }

    /// A copy of the builder with the test binary set.
    pub fn binfile(&self, bin: String) -> (r: Self)
        ensures
            r == (EmulatorBuilder { binfile: Some(bin), ..*self }),
    {
        let mut s = self.clone();
        s.binfile_mut(bin);
        s
    }

    /// The emulator invocation: `<emulator> -c <seriesfile> <binfile>`,
    /// with the standard output file standing in when no binary was set.
    pub fn build(&self) -> (r: Emulator)
        ensures
            r.program@ == self.emu@,
            r.args@.len() == 3,
            r.args@[0]@ == "-c"@,
            r.args@[1]@ == self.serie@,
            match self.binfile {
                Some(b) => r.args@[2]@ == b@,
                None => r.args@[2]@ == crate::compiler::STD_OUTFILE@,
            },
    {
        let mut args: Vec<String> = Vec::new();
        args.push("-c".to_owned());
        args.push(self.serie.clone());
        match &self.binfile {
            Some(b) => args.push(b.clone()),
            None => args.push(crate::compiler::STD_OUTFILE.to_owned()),
        }
        Emulator { program: self.emu.clone(), args }
    }
}

/// Byte-for-byte equality of two vectors.
pub fn eq_bytes(a: &Vec<u8>, b: &Vec<u8>) -> (r: bool)
    ensures
        r == (a@ == b@),
{
    if a.len() != b.len() {
        return false;
    }
    let mut i: usize = 0;
    while i < a.len()
        invariant
            0 <= i <= a@.len(),
            a@.len() == b@.len(),
            forall|j: int| 0 <= j < i ==> a@[j] == b@[j],
        decreases a@.len() - i,
    {
        if a[i] != b[i] {
            return false;
        }
        i = i + 1;
    }
    proof {
        assert(a@ =~= b@);
    }
    true
}

} // verus!
