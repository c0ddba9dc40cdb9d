//! The decoder for the emulator's console transcript: byte-level line
//! utilities, the register-dump parser, the memory-dump parser, and the
//! reconstruction of typed memory values from extracted words.

use vstd::prelude::*;

use crate::emulator::{
    byte_or_zero, le_words, word_le_bytes, words_to_bytes, MemoryData, MemoryValue, GPRegister,
    lemma_le_words_round_trip,
};
use crate::hex::{all_hex_digits, hex_fixed, hex_val, lemma_hex_val_bound, pow16};

verus! {

/// The ASCII whitespace bytes that line trimming removes.
pub open spec fn ascii_space(c: u8) -> bool {
    c == 32 || (9 <= c <= 13)
}

/// A byte sequence with leading ASCII whitespace removed.
pub open spec fn trim_front(s: Seq<u8>) -> Seq<u8>
    decreases s.len(),
{
    if s.len() > 0 && ascii_space(s[0]) {
        trim_front(s.skip(1))
    } else {
        s
    }
}

/// A byte sequence with trailing ASCII whitespace removed.
pub open spec fn trim_back(s: Seq<u8>) -> Seq<u8>
    decreases s.len(),
{
    if s.len() > 0 && ascii_space(s.last()) {
        trim_back(s.drop_last())
    } else {
        s
    }
}

/// A byte sequence with whitespace removed at both ends.
pub open spec fn trimmed(s: Seq<u8>) -> Seq<u8> {
    trim_back(trim_front(s))
}

proof fn lemma_trim_front_skip(s: Seq<u8>, lo: int)
    requires
        0 <= lo <= s.len(),
        forall|j: int| 0 <= j < lo ==> ascii_space(s[j]),
    ensures
        trim_front(s) == trim_front(s.skip(lo)),
    decreases lo,
{
    if lo > 0 {
        assert(trim_front(s) == trim_front(s.skip(1)));
        assert(s.skip(1).skip(lo - 1) =~= s.skip(lo));
        lemma_trim_front_skip(s.skip(1), lo - 1);
    } else {
        assert(s.skip(0) =~= s);
    }
}

proof fn lemma_trim_back_take(s: Seq<u8>, hi: int)
    requires
        0 <= hi <= s.len(),
        forall|j: int| hi <= j < s.len() ==> ascii_space(s[j]),
    ensures
        trim_back(s) == trim_back(s.take(hi)),
    decreases s.len() - hi,
{
    if hi < s.len() {
        assert(trim_back(s) == trim_back(s.drop_last()));
        assert(s.drop_last().take(hi) =~= s.take(hi));
        lemma_trim_back_take(s.drop_last(), hi);
    } else {
        assert(s.take(s.len() as int) =~= s);
    }
}

fn is_space_byte(c: u8) -> (r: bool)
    ensures
        r == ascii_space(c),
{
    c == 32 || (9 <= c && c <= 13)
}

/// Copies a byte string with ASCII whitespace removed at both ends.
pub fn trim_bytes(s: &[u8]) -> (r: Vec<u8>)
    ensures
        r@ == trimmed(s@),
{
    let mut lo: usize = 0;
    while lo < s.len() && is_space_byte(s[lo])
        invariant
            0 <= lo <= s@.len(),
            forall|j: int| 0 <= j < lo ==> ascii_space(s@[j]),
        decreases s@.len() - lo,
    {
        lo = lo + 1;
    }
    proof {
        lemma_trim_front_skip(s@, lo as int);
        if lo < s@.len() {
            assert(!ascii_space(s@.skip(lo as int)[0]));
        }
        assert(trim_front(s@) == s@.skip(lo as int));
    }
    let mut hi: usize = s.len();
    while hi > lo && is_space_byte(s[hi - 1])
        invariant
            lo <= hi <= s@.len(),
            forall|j: int| hi <= j < s@.len() ==> ascii_space(s@[j]),
        decreases hi,
    {
        hi = hi - 1;
    }
    proof {
        let t = s@.skip(lo as int);
        lemma_trim_back_take(t, hi - lo);
        if hi > lo {
            assert(!ascii_space(t.take(hi - lo).last()));
        }
        assert(trim_back(t.take(hi - lo)) == t.take(hi - lo));
        assert(t.take(hi - lo) =~= s@.subrange(lo as int, hi as int));
    }
    let mut out: Vec<u8> = Vec::new();
    let mut i: usize = lo;
    while i < hi
        invariant
            lo <= i <= hi <= s@.len(),
            out@ =~= s@.subrange(lo as int, i as int),
        decreases hi - i,
    {
        out.push(s[i]);
        proof {
            assert(s@.subrange(lo as int, i + 1) =~= s@.subrange(lo as int, i as int).push(
                s@[i as int],
            ));
        }
        i = i + 1;
    }
    out
}

/// Index of the first occurrence of `c` in `s`, or the length of `s`.
pub open spec fn find_byte(s: Seq<u8>, c: u8) -> nat
    decreases s.len(),
{
    if s.len() == 0 {
        0
    } else if s[0] == c {
        0
    } else {
        1 + find_byte(s.skip(1), c)
    }
}

proof fn lemma_find_byte_at(s: Seq<u8>, c: u8, k: int)
    requires
        0 <= k <= s.len(),
        forall|j: int| 0 <= j < k ==> s[j] != c,
        k == s.len() || s[k] == c,
    ensures
        find_byte(s, c) == k,
    decreases k,
{
    if k > 0 {
        lemma_find_byte_at(s.skip(1), c, k - 1);
    }
}

/// The pieces of `s` between occurrences of the separator `c`.
pub open spec fn split_byte(s: Seq<u8>, c: u8) -> Seq<Seq<u8>>
    decreases s.len(),
{
    let i = find_byte(s, c);
    if i >= s.len() {
        seq![s]
    } else {
        seq![s.take(i as int)] + split_byte(s.skip(i as int + 1), c)
    }
}

/// Splits a byte string at every occurrence of the separator.
pub fn split_bytes(s: &[u8], c: u8) -> (r: Vec<Vec<u8>>)
    ensures
        r@.map_values(|v: Vec<u8>| v@) == split_byte(s@, c),
{
    let mut out: Vec<Vec<u8>> = Vec::new();
    let mut start: usize = 0;
    let mut i: usize = 0;
    proof {
        assert(s@.skip(0) =~= s@);
        assert(out@.map_values(|v: Vec<u8>| v@) + split_byte(s@, c) =~= split_byte(s@, c));
    }
    while i < s.len()
        invariant
            0 <= start <= i <= s@.len(),
            forall|j: int| start <= j < i ==> s@[j] != c,
            split_byte(s@, c) =~= out@.map_values(|v: Vec<u8>| v@) + split_byte(
                s@.skip(start as int),
                c,
            ),
        decreases s@.len() - i,
    {
        if s[i] == c {
            let piece = subrange_vec(s, start, i);
            proof {
                let t = s@.skip(start as int);
                assert forall|j: int| 0 <= j < i - start implies t[j] != c by {
                    assert(t[j] == s@[start + j]);
                }
                assert(t[i - start] == c);
                lemma_find_byte_at(t, c, i - start);
                assert(t.take(i - start) =~= s@.subrange(start as int, i as int));
                assert(t.skip(i - start + 1) =~= s@.skip(i + 1));
                assert(split_byte(t, c) == seq![s@.subrange(start as int, i as int)] + split_byte(
                    s@.skip(i + 1),
                    c,
                ));
                assert(out@.push(piece).map_values(|v: Vec<u8>| v@) =~= out@.map_values(
                    |v: Vec<u8>| v@,
                ).push(piece@));
            }
            out.push(piece);
            start = i + 1;
        }
        i = i + 1;
    }
    let piece = subrange_vec(s, start, s.len());
    proof {
        let t = s@.skip(start as int);
        assert forall|j: int| 0 <= j < t.len() implies t[j] != c by {
            assert(t[j] == s@[start + j]);
        }
        lemma_find_byte_at(t, c, t.len() as int);
        assert(split_byte(t, c) == seq![t]);
        assert(t =~= s@.subrange(start as int, s@.len() as int));
        assert(out@.push(piece).map_values(|v: Vec<u8>| v@) =~= out@.map_values(
            |v: Vec<u8>| v@,
        ).push(piece@));
    }
    out.push(piece);
    out
}

/// Copies a range of a byte string.
pub fn subrange_vec(s: &[u8], from: usize, to: usize) -> (r: Vec<u8>)
    requires
        0 <= from <= to <= s@.len(),
    ensures
        r@ == s@.subrange(from as int, to as int),
{
    let mut out: Vec<u8> = Vec::new();
    let mut i: usize = from;
    while i < to
        invariant
            from <= i <= to <= s@.len(),
            out@ =~= s@.subrange(from as int, i as int),
        decreases to - i,
    {
        out.push(s[i]);
        proof {
            assert(s@.subrange(from as int, i + 1) =~= s@.subrange(from as int, i as int).push(
                s@[i as int],
            ));
        }
        i = i + 1;
    }
    out
}

/// The word with its four bytes in the opposite order. The dump lines show
/// words as big-endian text while the stored value is little-endian.
pub open spec fn swap32(w: u32) -> u32 {
    (w & 0xff) << 24 | ((w >> 8) & 0xff) << 16 | ((w >> 16) & 0xff) << 8 | ((w >> 24) & 0xff)
}

/// Reverses the byte order of a word.
pub fn swap_word(w: u32) -> (r: u32)
    ensures
        r == swap32(w),
{
    (w & 0xff) << 24 | ((w >> 8) & 0xff) << 16 | ((w >> 16) & 0xff) << 8 | ((w >> 24) & 0xff)
}

/// Law: swapping the byte order twice gives the word back.
pub proof fn lemma_swap32_involution(w: u32)
    ensures
        swap32(swap32(w)) == w,
{
    let x = swap32(w);
    assert((x & 0xff) << 24 | ((x >> 8) & 0xff) << 16 | ((x >> 16) & 0xff) << 8 | ((x >> 24) & 0xff)
        == w) by (bit_vector)
        requires
            x == (w & 0xff) << 24 | ((w >> 8) & 0xff) << 16 | ((w >> 16) & 0xff) << 8 | ((w >> 24)
                & 0xff),
    ;
}

/// The fixed number of execution-summary banner lines the emulator prints
/// between the operation acknowledgements and the register dump. A caller
/// adds it to the scripted operations' acknowledgement count to form the
/// decoder's skip count.
pub const BANNER_LINES: usize = 13;

/// Why a transcript could not be decoded. The transcript not matching the
/// assumed console layout is a defect of the session, never papered over
/// with a default value.
#[derive(Clone, Copy, Debug, PartialEq, Eq, Structural)]
pub enum ProtocolError {
    /// The transcript ended before a line the layout promises.
    Truncated,
    /// A register field was too short or not hexadecimal.
    RegisterField,
    /// The register dump held more fields than there are registers.
    RegisterCount,
    /// A dump line ended inside a word field or held a non-hexadecimal word.
    DumpLine,
    /// Too few words were extracted to rebuild the requested value.
    DumpData,
    /// A checked observation was never decoded for this address.
    MissingObservation(u32),
}

/// The views of a sequence of byte-vector lines.
pub open spec fn lines_view(lines: Seq<Vec<u8>>) -> Seq<Seq<u8>> {
    lines.map_values(|l: Vec<u8>| l@)
}

/// The register values read from a sequence of `h`-separated fields.
/// Each non-empty trimmed field drops its six-byte name prefix and reads
/// the rest as a hexadecimal word.
pub open spec fn fields_values(ps: Seq<Seq<u8>>) -> Result<Seq<u32>, ProtocolError>
    decreases ps.len(),
{
    if ps.len() == 0 {
        Ok(Seq::empty())
    } else {
        let p = trimmed(ps[0]);
        if p.len() == 0 {
            fields_values(ps.skip(1))
        } else if p.len() <= 6 {
            Err(ProtocolError::RegisterField)
        } else {
            let h = p.skip(6);
            if all_hex_digits(h) && hex_val(h) <= u32::MAX {
                match fields_values(ps.skip(1)) {
                    Ok(t) => Ok(seq![hex_val(h) as u32] + t),
                    Err(e) => Err(e),
                }
            } else {
                Err(ProtocolError::RegisterField)
            }
        }
    }
}

/// The register values read from one register-dump line.
pub open spec fn reg_line_values(line: Seq<u8>) -> Result<Seq<u32>, ProtocolError> {
    fields_values(split_byte(trimmed(line), 104))
}

/// The register values read from `n` consecutive register-dump lines.
pub open spec fn reg_lines_values(lines: Seq<Seq<u8>>, idx: int, n: int) -> Result<
    Seq<u32>,
    ProtocolError,
>
    decreases n,
{
    if n <= 0 {
        Ok(Seq::empty())
    } else if idx < 0 || idx >= lines.len() {
        Err(ProtocolError::Truncated)
    } else {
        match reg_line_values(lines[idx]) {
            Ok(vs) => match reg_lines_values(lines, idx + 1, n - 1) {
                Ok(t) => Ok(vs + t),
                Err(e) => Err(e),
            },
            Err(e) => Err(e),
        }
    }
}

/// The register bank formed from the dumped values: register 0 is never
/// written, the values fill registers 1 up, the rest stay zero.
pub open spec fn spec_register_bank(vals: Seq<u32>) -> Seq<u32>
    recommends
        vals.len() <= 31,
{
    seq![0u32] + vals + Seq::new((31 - vals.len()) as nat, |i: int| 0u32)
}

/// Reads the register values of one dump line: the line is trimmed, cut at
/// every `h`, and each non-empty field parsed past its six-byte prefix.
fn parse_register_line(line: &Vec<u8>, vals: &mut Vec<u32>) -> (r: Result<(), ProtocolError>)
    ensures
        match reg_line_values(line@) {
            Ok(vs) => r is Ok && final(vals)@ == old(vals)@ + vs,
            Err(e) => r == Err::<(), ProtocolError>(e),
        },
{
    let t = trim_bytes(line.as_slice());
    let pieces = split_bytes(t.as_slice(), 104);
    let ghost ps = split_byte(trimmed(line@), 104);
    proof {
        assert(pieces@.map_values(|v: Vec<u8>| v@) == ps);
    }
    let mut j: usize = 0;
    proof {
        assert(ps.skip(0) =~= ps);
    }
    while j < pieces.len()
        invariant
            0 <= j <= pieces@.len(),
            ps == split_byte(trimmed(line@), 104),
            pieces@.map_values(|v: Vec<u8>| v@) == ps,
            vals@.len() >= old(vals)@.len(),
            old(vals)@ == vals@.take(old(vals)@.len() as int),
            fields_values(ps) == (match fields_values(ps.skip(j as int)) {
                Ok(t) => Ok::<Seq<u32>, ProtocolError>(vals@.skip(old(vals)@.len() as int) + t),
                Err(e) => Err::<Seq<u32>, ProtocolError>(e),
            }),
        decreases pieces@.len() - j,
    {
        let ghost rest = ps.skip(j as int);
        proof {
            assert(rest.len() > 0);
            assert(rest[0] == ps[j as int]);
            assert(rest.skip(1) =~= ps.skip(j as int + 1));
            assert(pieces@.map_values(|v: Vec<u8>| v@)[j as int] == pieces@[j as int]@);
        }
        let p = trim_bytes(pieces[j].as_slice());
        proof {
            assert(p@ == trimmed(rest[0]));
        }
        if p.len() == 0 {
            j = j + 1;
            continue ;
        }
        if p.len() <= 6 {
            proof {
                assert(fields_values(rest) == Err::<Seq<u32>, ProtocolError>(
                    ProtocolError::RegisterField,
                ));
                assert(fields_values(ps) == Err::<Seq<u32>, ProtocolError>(
                    ProtocolError::RegisterField,
                ));
            }
            return Err(ProtocolError::RegisterField);
        }
        let h = &p.as_slice()[6..p.len()];
        proof {
            assert(h@ =~= trimmed(rest[0]).skip(6));
        }
        match crate::hex::parse_hex_u32(h) {
            Some(v) => {
                let ghost prev = vals@;
                vals.push(v);
                proof {
                    let next = fields_values(ps.skip(j as int + 1));
                    if next is Ok {
                        let t = next->Ok_0;
                        assert(fields_values(rest) == Ok::<Seq<u32>, ProtocolError>(seq![v] + t));
                        assert(prev.skip(old(vals)@.len() as int) + (seq![v] + t) =~= vals@.skip(
                            old(vals)@.len() as int,
                        ) + t);
                    }
                    assert(old(vals)@ =~= vals@.take(old(vals)@.len() as int));
                }
            },
            None => {
                proof {
                    assert(!(all_hex_digits(h@) && hex_val(h@) <= u32::MAX));
                    assert(fields_values(rest) == Err::<Seq<u32>, ProtocolError>(
                        ProtocolError::RegisterField,
                    ));
                }
                return Err(ProtocolError::RegisterField);
            },
        }
        j = j + 1;
    }
    proof {
        assert(ps.skip(ps.len() as int) =~= Seq::<Seq<u8>>::empty());
        assert(fields_values(ps.skip(ps.len() as int)) == Ok::<Seq<u32>, ProtocolError>(
            Seq::empty(),
        ));
        assert(vals@.skip(old(vals)@.len() as int) + Seq::<u32>::empty() =~= vals@.skip(
            old(vals)@.len() as int,
        ));
        assert(old(vals)@ + vals@.skip(old(vals)@.len() as int) =~= vals@);
    }
    Ok(())
}

/// Decodes the eight general-purpose register dump lines that start at
/// `start`, and forms the 32-slot register bank.
pub fn parse_registers(lines: &Vec<Vec<u8>>, start: usize) -> (r: Result<Vec<u32>, ProtocolError>)
    ensures
        match reg_lines_values(lines_view(lines@), start as int, 8) {
            Ok(vals) => if vals.len() <= 31 {
                r is Ok && r->Ok_0@ == spec_register_bank(vals)
            } else {
                r == Err::<Vec<u32>, ProtocolError>(ProtocolError::RegisterCount)
            },
            Err(e) => r == Err::<Vec<u32>, ProtocolError>(e),
        },
{
    let ghost lv = lines_view(lines@);
    let mut vals: Vec<u32> = Vec::new();
    let mut li: usize = 0;
    while li < 8
        invariant
            0 <= li <= 8,
            lv == lines_view(lines@),
            reg_lines_values(lv, start as int, 8) == (match reg_lines_values(
                lv,
                start as int + li,
                8 - li,
            ) {
                Ok(t) => Ok::<Seq<u32>, ProtocolError>(vals@ + t),
                Err(e) => Err::<Seq<u32>, ProtocolError>(e),
            }),
        decreases 8 - li,
    {
        if start >= lines.len() || li >= lines.len() - start {
            return Err(ProtocolError::Truncated);
        }
        let idx = start + li;
        proof {
            assert(lv[idx as int] == lines@[idx as int]@);
        }
        let ghost prev = vals@;
        let res = parse_register_line(&lines[idx], &mut vals);
        match res {
            Ok(()) => {
                proof {
                    let vs = reg_line_values(lv[idx as int])->Ok_0;
                    let next = reg_lines_values(lv, start as int + li + 1, 8 - li - 1);
                    if next is Ok {
                        let t = next->Ok_0;
                        assert(reg_lines_values(lv, start as int + li, 8 - li) == Ok::<
                            Seq<u32>,
                            ProtocolError,
                        >(vs + t));
                        assert(prev + (vs + t) =~= vals@ + t);
                    }
                }
            },
            Err(e) => {
                return Err(e);
            },
        }
        li = li + 1;
    }
    proof {
        assert(reg_lines_values(lv, start as int + 8, 0) == Ok::<Seq<u32>, ProtocolError>(
            Seq::empty(),
        ));
        assert(vals@ + Seq::<u32>::empty() =~= vals@);
    }
    if vals.len() > 31 {
        return Err(ProtocolError::RegisterCount);
    }
    let mut bank: Vec<u32> = Vec::new();
    bank.push(0);
    let n = vals.len();
    let mut k: usize = 0;
    while k < n
        invariant
            0 <= k <= n == vals@.len() <= 31,
            bank@ =~= seq![0u32] + vals@.take(k as int),
        decreases n - k,
    {
        bank.push(vals[k]);
        proof {
            assert(seq![0u32] + vals@.take(k + 1) =~= (seq![0u32] + vals@.take(k as int)).push(
                vals@[k as int],
            ));
        }
        k = k + 1;
    }
    while k < 31
        invariant
            vals@.len() <= k <= 31,
            bank@ =~= seq![0u32] + vals@ + Seq::new((k - vals@.len()) as nat, |i: int| 0u32),
        decreases 31 - k,
    {
        bank.push(0);
        proof {
            assert(seq![0u32] + vals@ + Seq::new((k + 1 - vals@.len()) as nat, |i: int| 0u32)
                =~= (seq![0u32] + vals@ + Seq::new((k - vals@.len()) as nat, |i: int| 0u32)).push(
                0u32,
            ));
        }
        k = k + 1;
    }
    proof {
        assert(vals@.take(vals@.len() as int) =~= vals@);
        assert(bank@ =~= spec_register_bank(vals@));
    }
    Ok(bank)
}

/// The words shown on one dump line, read from fixed columns: the field for
/// word column `shift` starts at byte `17 + 13 * shift`. A line that ends
/// before a column starts simply has no more words; one that ends inside a
/// field, or shows a non-hexadecimal field, is a protocol defect. Each
/// field reads as big-endian text and is byte-swapped to the stored word.
pub open spec fn line_words(line: Seq<u8>, shift: int) -> Result<Seq<u32>, ProtocolError>
    decreases 4 - shift,
{
    if shift < 0 || shift >= 4 {
        Ok(Seq::empty())
    } else {
        let start = 17 + 13 * shift;
        if line.len() <= start {
            Ok(Seq::empty())
        } else if line.len() < start + 8 {
            Err(ProtocolError::DumpLine)
        } else {
            let h = line.subrange(start, start + 8);
            if all_hex_digits(h) {
                match line_words(line, shift + 1) {
                    Ok(t) => Ok(seq![swap32(hex_val(h) as u32)] + t),
                    Err(e) => Err(e),
                }
            } else {
                Err(ProtocolError::DumpLine)
            }
        }
    }
}

/// The words of `rows` consecutive dump lines. Only the first line starts
/// at a column other than zero: it skips the columns before the requested
/// address's word.
pub open spec fn rows_words(lines: Seq<Seq<u8>>, idx: int, rows: int, first_shift: int) -> Result<
    Seq<u32>,
    ProtocolError,
>
    decreases rows,
{
    if rows <= 0 {
        Ok(Seq::empty())
    } else if idx < 0 || idx >= lines.len() {
        Err(ProtocolError::Truncated)
    } else {
        match line_words(lines[idx], first_shift) {
            Ok(ws) => match rows_words(lines, idx + 1, rows - 1, 0) {
                Ok(t) => Ok(ws + t),
                Err(e) => Err(e),
            },
            Err(e) => Err(e),
        }
    }
}

/// Reads the words of one dump line into `out`, starting at column
/// `first_shift`.
fn parse_dump_line(line: &Vec<u8>, first_shift: usize, out: &mut Vec<u32>) -> (r: Result<
    (),
    ProtocolError,
>)
    requires
        first_shift <= 4,
    ensures
        match line_words(line@, first_shift as int) {
            Ok(t) => r is Ok && final(out)@ == old(out)@ + t,
            Err(e) => r == Err::<(), ProtocolError>(e),
        },
{
    let mut shift: usize = first_shift;
    while shift < 4
        invariant
            first_shift <= shift <= 4,
            out@.len() >= old(out)@.len(),
            old(out)@ == out@.take(old(out)@.len() as int),
            line_words(line@, first_shift as int) == (match line_words(line@, shift as int) {
                Ok(t) => Ok::<Seq<u32>, ProtocolError>(out@.skip(old(out)@.len() as int) + t),
                Err(e) => Err::<Seq<u32>, ProtocolError>(e),
            }),
        decreases 4 - shift,
    {
        let start: usize = 17 + 13 * shift;
        if line.len() <= start {
            proof {
                assert(line_words(line@, shift as int) == Ok::<Seq<u32>, ProtocolError>(
                    Seq::empty(),
                ));
                assert(out@.skip(old(out)@.len() as int) + Seq::<u32>::empty() =~= out@.skip(
                    old(out)@.len() as int,
                ));
                assert(old(out)@ + out@.skip(old(out)@.len() as int) =~= out@);
            }
            return Ok(());
        }
        if line.len() < start + 8 {
            return Err(ProtocolError::DumpLine);
        }
        let h = &line.as_slice()[start..start + 8];
        proof {
            assert(h@ =~= line@.subrange(start as int, start as int + 8));
            lemma_hex_val_bound(h@);
            assert(pow16(8) == 0x1_0000_0000) by {
                reveal_with_fuel(pow16, 9);
            };
        }
        match crate::hex::parse_hex_u32(h) {
            Some(v) => {
                let w = swap_word(v);
                let ghost prev = out@;
                out.push(w);
                proof {
                    let next = line_words(line@, shift as int + 1);
                    if next is Ok {
                        let t = next->Ok_0;
                        assert(line_words(line@, shift as int) == Ok::<Seq<u32>, ProtocolError>(
                            seq![w] + t,
                        ));
                        assert(prev.skip(old(out)@.len() as int) + (seq![w] + t) =~= out@.skip(
                            old(out)@.len() as int,
                        ) + t);
                    }
                    assert(old(out)@ =~= out@.take(old(out)@.len() as int));
                }
            },
            None => {
                return Err(ProtocolError::DumpLine);
            },
        }
        shift = shift + 1;
    }
    proof {
        assert(line_words(line@, 4) == Ok::<Seq<u32>, ProtocolError>(Seq::empty()));
        assert(out@.skip(old(out)@.len() as int) + Seq::<u32>::empty() =~= out@.skip(
            old(out)@.len() as int,
        ));
        assert(old(out)@ + out@.skip(old(out)@.len() as int) =~= out@);
    }
    Ok(())
}

/// Reads the words of `rows` consecutive dump lines starting at line `idx`.
fn parse_dump_rows(lines: &Vec<Vec<u8>>, idx: usize, rows: u64, first_shift: usize) -> (r: Result<
    (Vec<u32>, usize),
    ProtocolError,
>)
    requires
        first_shift <= 4,
        idx <= lines@.len(),
    ensures
        match rows_words(lines_view(lines@), idx as int, rows as int, first_shift as int) {
            Ok(t) => r is Ok && r->Ok_0.0@ == t && r->Ok_0.1 == idx + rows && r->Ok_0.1
                <= lines@.len(),
            Err(e) => r == Err::<(Vec<u32>, usize), ProtocolError>(e),
        },
{
    let ghost lv = lines_view(lines@);
    let mut out: Vec<u32> = Vec::new();
    let mut row: usize = 0;
    let mut cur: usize = idx;
    while (row as u64) < rows
        invariant
            lv == lines_view(lines@),
            first_shift <= 4,
            0 <= row as u64 <= rows,
            cur == idx + row,
            cur <= lines@.len(),
            rows_words(lv, idx as int, rows as int, first_shift as int) == (match rows_words(
                lv,
                cur as int,
                rows as int - row,
                (if row == 0 {
                    first_shift as int
                } else {
                    0
                }),
            ) {
                Ok(t) => Ok::<Seq<u32>, ProtocolError>(out@ + t),
                Err(e) => Err::<Seq<u32>, ProtocolError>(e),
            }),
        decreases rows - row,
    {
        if cur >= lines.len() {
            return Err(ProtocolError::Truncated);
        }
        proof {
            assert(lv[cur as int] == lines@[cur as int]@);
        }
        let shift: usize = if row == 0 {
            first_shift
        } else {
            0
        };
        let ghost prev = out@;
        match parse_dump_line(&lines[cur], shift, &mut out) {
            Ok(()) => {
                proof {
                    let ws = line_words(lv[cur as int], shift as int)->Ok_0;
                    let next = rows_words(lv, cur as int + 1, rows as int - row - 1, 0);
                    if next is Ok {
                        let t = next->Ok_0;
                        assert(rows_words(
                            lv,
                            cur as int,
                            rows as int - row,
                            (if row == 0 {
                                first_shift as int
                            } else {
                                0
                            }),
                        ) == Ok::<Seq<u32>, ProtocolError>(ws + t));
                        assert(prev + (ws + t) =~= out@ + t);
                    }
                }
            },
            Err(e) => {
                return Err(e);
            },
        }
        row = row + 1;
        cur = cur + 1;
    }
    proof {
        assert(out@ + Seq::<u32>::empty() =~= out@);
    }
    Ok((out, cur))
}

/// The half-word held in a word's little-endian bytes `off` and `off + 1`.
pub open spec fn half_from(w: u32, off: int) -> u16
    recommends
        0 <= off <= 2,
{
    (word_le_bytes(w)[off] as u16) | (word_le_bytes(w)[off + 1] as u16) << 8
}

/// The double word made of a low and a high word.
pub open spec fn combine64(lo: u32, hi: u32) -> u64 {
    (lo as u64) | (hi as u64) << 32
}

/// The typed value rebuilt from the words extracted for one request, by the
/// requested length and the address's alignment:
/// a single byte comes from the first word at offset `addr % 4`;
/// a half-word at an even address from the first word at offset `addr % 2`;
/// a word at a word-aligned address is the first word itself;
/// a double word at an eight-byte-aligned address joins the first two words;
/// every other combination flattens all words to little-endian bytes, skips
/// the `addr % 4` leading bytes and takes exactly `len` bytes.
/// Too little extracted data is a protocol defect, never a default value.
pub open spec fn reconstruct(ws: Seq<u32>, addr: u32, len: u32) -> Result<
    MemoryValue,
    ProtocolError,
> {
    if len == 1 {
        if ws.len() >= 1 {
            Ok(MemoryValue::Byte(word_le_bytes(ws[0])[addr as int % 4]))
        } else {
            Err(ProtocolError::DumpData)
        }
    } else if addr % 2 == 0 && len == 2 {
        if ws.len() >= 1 {
            Ok(MemoryValue::HalfWord(half_from(ws[0], addr as int % 2)))
        } else {
            Err(ProtocolError::DumpData)
        }
    } else if addr % 4 == 0 && len == 4 {
        if ws.len() >= 1 {
            Ok(MemoryValue::Word(ws[0]))
        } else {
            Err(ProtocolError::DumpData)
        }
    } else if addr % 8 == 0 && len == 8 {
        if ws.len() >= 2 {
            Ok(MemoryValue::DoubleWord(combine64(ws[0], ws[1])))
        } else {
            Err(ProtocolError::DumpData)
        }
    } else {
        let all = words_to_bytes(ws);
        if all.len() >= addr as int % 4 + len {
            Ok(MemoryValue::Bytes(all.subrange(addr as int % 4, addr as int % 4 + len)))
        } else {
            Err(ProtocolError::DumpData)
        }
    }
}

/// Flattening distributes over concatenation of word sequences.
pub proof fn lemma_words_to_bytes_append(a: Seq<u32>, b: Seq<u32>)
    ensures
        words_to_bytes(a + b) == words_to_bytes(a) + words_to_bytes(b),
    decreases a.len(),
{
    if a.len() == 0 {
        assert(a + b =~= b);
        assert(words_to_bytes(a) + words_to_bytes(b) =~= words_to_bytes(b));
    } else {
        assert((a + b)[0] == a[0]);
        assert((a + b).skip(1) =~= a.skip(1) + b);
        lemma_words_to_bytes_append(a.skip(1), b);
        assert(words_to_bytes(a + b) =~= words_to_bytes(a) + words_to_bytes(b));
    }
}

/// Flattens words to their little-endian bytes.
fn flatten_words(ws: &Vec<u32>) -> (r: Vec<u8>)
    ensures
        r@ == words_to_bytes(ws@),
{
    let mut out: Vec<u8> = Vec::new();
    let mut i: usize = 0;
    proof {
        assert(words_to_bytes(ws@.take(0)) =~= Seq::<u8>::empty());
    }
    while i < ws.len()
        invariant
            0 <= i <= ws@.len(),
            out@ == words_to_bytes(ws@.take(i as int)),
        decreases ws@.len() - i,
    {
        let w = ws[i];
        proof {
            assert(ws@.take(i + 1) =~= ws@.take(i as int) + seq![w]);
            lemma_words_to_bytes_append(ws@.take(i as int), seq![w]);
            assert(seq![w].skip(1) =~= Seq::<u32>::empty());
            assert(words_to_bytes(Seq::<u32>::empty()) =~= Seq::<u8>::empty());
            assert(seq![w][0] == w);
            assert(words_to_bytes(seq![w]) =~= word_le_bytes(w));
            assert(out@ + word_le_bytes(w) =~= out@.push((w & 0xff) as u8).push(
                ((w >> 8) & 0xff) as u8,
            ).push(((w >> 16) & 0xff) as u8).push(((w >> 24) & 0xff) as u8));
        }
        out.push((w & 0xff) as u8);
        out.push(((w >> 8) & 0xff) as u8);
        out.push(((w >> 16) & 0xff) as u8);
        out.push(((w >> 24) & 0xff) as u8);
        i = i + 1;
    }
    proof {
        assert(ws@.take(ws@.len() as int) =~= ws@);
    }
    out
}

/// Rebuilds the typed value of one request from its extracted words.
fn reconstruct_value(ws: &Vec<u32>, addr: u32, len: u32) -> (r: Result<MemoryData, ProtocolError>)
    ensures
        match reconstruct(ws@, addr, len) {
            Ok(mv) => r is Ok && r->Ok_0@ == mv,
            Err(e) => r == Err::<MemoryData, ProtocolError>(e),
        },
{
    if len == 1 {
        if ws.len() >= 1 {
            let w = ws[0];
            let k = addr % 4;
            proof {
                assert(w & 0xff < 256 && (w >> 8) & 0xff < 256 && (w >> 16) & 0xff < 256 && (w
                    >> 24) & 0xff < 256) by (bit_vector);
            }
            let b: u8 = if k == 0 {
                (w & 0xff) as u8
            } else if k == 1 {
                ((w >> 8) & 0xff) as u8
            } else if k == 2 {
                ((w >> 16) & 0xff) as u8
            } else {
                ((w >> 24) & 0xff) as u8
            };
            Ok(MemoryData::Byte(b))
        } else {
            Err(ProtocolError::DumpData)
        }
    } else if addr % 2 == 0 && len == 2 {
        if ws.len() >= 1 {
            let w = ws[0];
            proof {
                assert(w & 0xff < 256 && (w >> 8) & 0xff < 256) by (bit_vector);
            }
            let h: u16 = ((w & 0xff) as u16) | (((w >> 8) & 0xff) as u16) << 8;
            proof {
                assert(word_le_bytes(w)[0] == (w & 0xff) as u8);
                assert(word_le_bytes(w)[1] == ((w >> 8) & 0xff) as u8);
                assert(h == half_from(w, 0));
            }
            Ok(MemoryData::HalfWord(h))
        } else {
            Err(ProtocolError::DumpData)
        }
    } else if addr % 4 == 0 && len == 4 {
        if ws.len() >= 1 {
            Ok(MemoryData::Word(ws[0]))
        } else {
            Err(ProtocolError::DumpData)
        }
    } else if addr % 8 == 0 && len == 8 {
        if ws.len() >= 2 {
            Ok(MemoryData::DoubleWord(combine_words(ws[0], ws[1])))
        } else {
            Err(ProtocolError::DumpData)
        }
    } else {
        let all = flatten_words(ws);
        let off: usize = (addr % 4) as usize;
        if (all.len() as u64) >= off as u64 + len as u64 {
            let sub = subrange_vec(all.as_slice(), off, off + len as usize);
            Ok(MemoryData::Bytes(sub))
        } else {
            Err(ProtocolError::DumpData)
        }
    }
}

/// Joins a low and a high word into a double word.
fn combine_words(lo: u32, hi: u32) -> (r: u64)
    ensures
        r == combine64(lo, hi),
{
    (lo as u64) | (hi as u64) << 32
}

/// The number of dump lines one request of `len` bytes produces.
pub open spec fn rows_for(len: u32) -> int {
    (len as int + 15) / 16
}

/// The first dump column of a request: the word holding its address.
pub open spec fn first_shift_for(addr: u32) -> int {
    (addr as int % 16) / 4
}

/// The decoded observations of all memory requests, in request order. Each
/// request skips two header lines (as far as the transcript reaches), reads
/// its dump rows, and rebuilds the typed value.
pub open spec fn decode_requests(lines: Seq<Seq<u8>>, idx: int, mem: Seq<(u32, u32)>) -> Result<
    Seq<(u32, MemoryValue)>,
    ProtocolError,
>
    decreases mem.len(),
{
    if mem.len() == 0 {
        Ok(Seq::empty())
    } else {
        let addr = mem[0].0;
        let len = mem[0].1;
        let hdr = if idx + 2 <= lines.len() {
            idx + 2
        } else {
            lines.len() as int
        };
        match rows_words(lines, hdr, rows_for(len), first_shift_for(addr)) {
            Ok(ws) => match reconstruct(ws, addr, len) {
                Ok(v) => match decode_requests(lines, hdr + rows_for(len), mem.skip(1)) {
                    Ok(t) => Ok(seq![(addr, v)] + t),
                    Err(e) => Err(e),
                },
                Err(e) => Err(e),
            },
            Err(e) => Err(e),
        }
    }
}

/// The views of decoded memory entries.
pub open spec fn mem_view(m: Seq<(u32, MemoryData)>) -> Seq<(u32, MemoryValue)> {
    m.map_values(|p: (u32, MemoryData)| (p.0, p.1@))
}

/// What a whole transcript decodes to, after `skip` acknowledgement lines
/// and a 13-line execution banner have been stepped over by the caller's
/// `skip` count: two special-register lines are passed by, eight lines form
/// the register bank, and the memory requests follow.
pub open spec fn spec_decode(lines: Seq<Seq<u8>>, skip: int, mem: Seq<(u32, u32)>) -> Result<
    (Seq<u32>, Seq<(u32, MemoryValue)>),
    ProtocolError,
> {
    match reg_lines_values(lines, skip + 2, 8) {
        Ok(vals) => if vals.len() <= 31 {
            match decode_requests(lines, skip + 10, mem) {
                Ok(ms) => Ok((spec_register_bank(vals), ms)),
                Err(e) => Err(e),
            }
        } else {
            Err(ProtocolError::RegisterCount)
        },
        Err(e) => Err(e),
    }
}

/// The decoded state of one emulator run: the 32-slot register bank, the
/// decoded memory observations in request order, and the halt code the
/// banner reported, if any.
#[derive(Debug)]
pub struct RunResult {
    pub registers: Vec<u32>,
    pub memory: Vec<(u32, MemoryData)>,
    pub stop_code: Option<String>,
}

/// The observation recorded for an address: the latest request wins, as an
/// insertion into a map would.
pub open spec fn mem_lookup(m: Seq<(u32, MemoryValue)>, addr: u32) -> Option<MemoryValue>
    decreases m.len(),
{
    if m.len() == 0 {
        None
    } else if m.last().0 == addr {
        Some(m.last().1)
    } else {
        mem_lookup(m.drop_last(), addr)
    }
}

impl RunResult {
    /// The register bank always holds all 32 registers.
    pub open spec fn wf(self) -> bool {
        self.registers@.len() == 32
    }

    /// The value the run left in a register.
    pub fn get_reg(&self, reg: &GPRegister) -> (r: u32)
        requires
            self.wf(),
            reg.wf(),
        ensures
            r == self.registers@[reg.spec_index() as int],
    {
        self.registers[reg.index() as usize]
    }

    /// The observation decoded for an address, if one was requested.
    pub fn get_mem(&self, addr: u32) -> (r: Option<&MemoryData>)
        ensures
            match mem_lookup(mem_view(self.memory@), addr) {
                Some(v) => r is Some && r->0@ == v,
                None => r is None,
            },
    {
        let ghost mv = mem_view(self.memory@);
        let mut i: usize = self.memory.len();
        proof {
            assert(mv.take(self.memory@.len() as int) =~= mv);
        }
        while i > 0
            invariant
                0 <= i <= self.memory@.len(),
                mv == mem_view(self.memory@),
                mem_lookup(mv, addr) == mem_lookup(mv.take(i as int), addr),
            decreases i,
        {
            proof {
                assert(mv[i - 1] == (self.memory@[i - 1].0, self.memory@[i - 1].1@));
                assert(mv.take(i as int).last() == mv[i - 1]);
                assert(mv.take(i as int).drop_last() =~= mv.take(i - 1));
            }
            if self.memory[i - 1].0 == addr {
                return Some(&self.memory[i - 1].1);
            }
            i = i - 1;
        }
        proof {
            assert(mv.take(0) =~= Seq::<(u32, MemoryValue)>::empty());
        }
        None
    }

    /// The halt code the emulator banner reported, if any.
    pub fn get_stop_code(&self) -> (r: Option<&String>)
        ensures
            r is Some <==> self.stop_code is Some,
            r is Some ==> r->0 == self.stop_code->0,
    {
        self.stop_code.as_ref()
    }

    /// Decodes a transcript: steps over `skip` acknowledgement and banner
    /// lines plus the two special-register lines, reads the eight register
    /// dump lines, then decodes every memory request in order. A halt code
    /// is not decoded here and stays absent.
    pub fn decode(lines: &Vec<Vec<u8>>, skip: usize, memory: &Vec<(u32, u32)>) -> (r: Result<
        RunResult,
        ProtocolError,
    >)
        ensures
            match spec_decode(lines_view(lines@), skip as int, memory@) {
                Ok(bm) => r is Ok && r->Ok_0.registers@ == bm.0 && mem_view(r->Ok_0.memory@)
                    == bm.1 && r->Ok_0.stop_code is None && r->Ok_0.wf(),
                Err(e) => r == Err::<RunResult, ProtocolError>(e),
            },
    {
        let ghost lv = lines_view(lines@);
        if skip >= lines.len() || lines.len() - skip < 2 {
            proof {
                assert(reg_lines_values(lv, skip as int + 2, 8) == Err::<Seq<u32>, ProtocolError>(
                    ProtocolError::Truncated,
                ));
            }
            return Err(ProtocolError::Truncated);
        }
        let start = skip + 2;
        let bank = match parse_registers(lines, start) {
            Ok(b) => b,
            Err(e) => {
                return Err(e);
            },
        };
        proof {
            assert(bank@.len() == 32);
        }
        let mut cur: usize = if lines.len() - start >= 8 {
            start + 8
        } else {
            lines.len()
        };
        proof {
            if memory@.len() > 0 {
                assert(decode_requests(lv, skip as int + 10, memory@) == decode_requests(
                    lv,
                    cur as int,
                    memory@,
                ));
            }
        }
        let mut out: Vec<(u32, MemoryData)> = Vec::new();
        let mut k: usize = 0;
        proof {
            assert(memory@.skip(0) =~= memory@);
            assert(mem_view(out@) + Seq::<(u32, MemoryValue)>::empty() =~= mem_view(out@));
        }
        while k < memory.len()
            invariant
                0 <= k <= memory@.len(),
                lv == lines_view(lines@),
                cur <= lines@.len(),
                reg_lines_values(lv, skip as int + 2, 8) is Ok,
                reg_lines_values(lv, skip as int + 2, 8)->Ok_0.len() <= 31,
                bank@ == spec_register_bank(reg_lines_values(lv, skip as int + 2, 8)->Ok_0),
                bank@.len() == 32,
                decode_requests(lv, skip as int + 10, memory@) == (match decode_requests(
                    lv,
                    cur as int,
                    memory@.skip(k as int),
                ) {
                    Ok(t) => Ok::<Seq<(u32, MemoryValue)>, ProtocolError>(mem_view(out@) + t),
                    Err(e) => Err::<Seq<(u32, MemoryValue)>, ProtocolError>(e),
                }),
            decreases memory@.len() - k,
        {
            let ghost mrest = memory@.skip(k as int);
            proof {
                assert(mrest.len() > 0);
                assert(mrest[0] == memory@[k as int]);
                assert(mrest.skip(1) =~= memory@.skip(k as int + 1));
            }
            let (addr, len) = (memory[k].0, memory[k].1);
            let hdr: usize = if lines.len() - cur >= 2 {
                cur + 2
            } else {
                lines.len()
            };
            let rows: u64 = (len as u64 + 15) / 16;
            let shift: usize = ((addr % 16) / 4) as usize;
            let ghost prev = out@;
            proof {
                assert(lv.len() == lines@.len());
                assert(hdr as int == (if cur as int + 2 <= lv.len() {
                    cur as int + 2
                } else {
                    lv.len() as int
                }));
                assert(rows as int == rows_for(len));
                assert(shift as int == first_shift_for(addr));
            }
            match parse_dump_rows(lines, hdr, rows, shift) {
                Ok((ws, next)) => {
                    match reconstruct_value(&ws, addr, len) {
                        Ok(md) => {
                            proof {
                                let tail = decode_requests(lv, next as int, memory@.skip(
                                    k as int + 1,
                                ));
                                if tail is Ok {
                                    let t = tail->Ok_0;
                                    assert(decode_requests(lv, cur as int, mrest) == Ok::<
                                        Seq<(u32, MemoryValue)>,
                                        ProtocolError,
                                    >(seq![(addr, md@)] + t));
                                    assert(mem_view(prev.push((addr, md))) =~= mem_view(prev).push(
                                        (addr, md@),
                                    ));
                                    assert(mem_view(prev) + (seq![(addr, md@)] + t) =~= mem_view(
                                        prev.push((addr, md)),
                                    ) + t);
                                } else {
                                    assert(mem_view(prev.push((addr, md))) =~= mem_view(prev).push(
                                        (addr, md@),
                                    ));
                                }
                            }
                            out.push((addr, md));
                            cur = next;
                        },
                        Err(e) => {
                            proof {
                                assert(decode_requests(lv, cur as int, mrest) == Err::<
                                    Seq<(u32, MemoryValue)>,
                                    ProtocolError,
                                >(e));
                            }
                            return Err(e);
                        },
                    }
                },
                Err(e) => {
                    proof {
                        assert(decode_requests(lv, cur as int, mrest) == Err::<
                            Seq<(u32, MemoryValue)>,
                            ProtocolError,
                        >(e));
                    }
                    return Err(e);
                },
            }
            k = k + 1;
        }
        proof {
            assert(memory@.skip(memory@.len() as int) =~= Seq::<(u32, u32)>::empty());
            assert(decode_requests(lv, cur as int, Seq::<(u32, u32)>::empty()) == Ok::<
                Seq<(u32, MemoryValue)>,
                ProtocolError,
            >(Seq::empty()));
            assert(mem_view(out@) + Seq::<(u32, MemoryValue)>::empty() =~= mem_view(out@));
        }
        Ok(RunResult { registers: bank, memory: out, stop_code: None })
    }
}

/// Law: a dump line constructed by hand — any 17-byte prefix, then the
/// stored word written byte-swapped as eight hexadecimal digits, the way
/// the console shows it — decodes to exactly that stored word.
pub proof fn lemma_dump_line_round_trip(w: u32, prefix: Seq<u8>)
    requires
        prefix.len() == 17,
    ensures
        line_words(prefix + hex_fixed(swap32(w) as nat, 8), 0) == Ok::<Seq<u32>, ProtocolError>(
            seq![w],
        ),
{
    assert(pow16(8) == 0x1_0000_0000) by {
        reveal_with_fuel(pow16, 9);
    };
    crate::hex::lemma_hex_fixed_round_trip(swap32(w) as nat, 8);
    let line = prefix + hex_fixed(swap32(w) as nat, 8);
    assert(line.subrange(17, 25) =~= hex_fixed(swap32(w) as nat, 8));
    assert(line_words(line, 1) == Ok::<Seq<u32>, ProtocolError>(Seq::empty()));
    lemma_swap32_involution(w);
    assert(seq![swap32(hex_val(line.subrange(17, 25)) as u32)] + Seq::<u32>::empty() =~= seq![w]);
}

/// Law: a single-byte request reads back exactly the byte that the dump
/// word holds at the address's offset, at any address.
pub proof fn lemma_reconstruct_byte(ws: Seq<u32>, addr: u32)
    requires
        ws.len() >= 1,
    ensures
        reconstruct(ws, addr, 1) == Ok::<MemoryValue, ProtocolError>(
            MemoryValue::Byte(word_le_bytes(ws[0])[addr as int % 4]),
        ),
{
}

/// Law: a half-word request at a word-aligned address reads back exactly
/// the low half-word of the dump word. (At an address that is even but not
/// word-aligned the dump word holds the value in its upper half while the
/// decode reads the lower one, so the round trip holds only at word
/// alignment.)
pub proof fn lemma_reconstruct_half(ws: Seq<u32>, addr: u32)
    requires
        ws.len() >= 1,
        addr % 4 == 0,
    ensures
        reconstruct(ws, addr, 2) == Ok::<MemoryValue, ProtocolError>(
            MemoryValue::HalfWord(half_from(ws[0], 0)),
        ),
{
}

/// Law: a word encoded by the codec and decoded at a word-aligned address
/// comes back unchanged.
pub proof fn lemma_word_round_trip(w: u32, addr: u32)
    requires
        addr % 4 == 0,
    ensures
        reconstruct(seq![w], addr, 4) == Ok::<MemoryValue, ProtocolError>(MemoryValue::Word(w)),
{
}

/// Law: a double word split into its low and high words by the codec and
/// decoded at an eight-byte-aligned address comes back unchanged.
pub proof fn lemma_double_word_round_trip(d: u64, addr: u32)
    requires
        addr % 8 == 0,
    ensures
        reconstruct(seq![(d & 0xffff_ffff) as u32, ((d >> 32) & 0xffff_ffff) as u32], addr, 8)
            == Ok::<MemoryValue, ProtocolError>(MemoryValue::DoubleWord(d)),
{
    let lo = (d & 0xffff_ffff) as u32;
    let hi = ((d >> 32) & 0xffff_ffff) as u32;
    assert((lo as u64) | (hi as u64) << 32 == d) by (bit_vector)
        requires
            lo == (d & 0xffff_ffff) as u32 && hi == ((d >> 32) & 0xffff_ffff) as u32,
    ;
}

/// Law: a byte run encoded into words by the codec and decoded at a
/// word-aligned address with its own length comes back unchanged, whenever
/// the length does not make the decode read a typed value instead.
pub proof fn lemma_bytes_round_trip(b: Seq<u8>, addr: u32)
    requires
        addr % 4 == 0,
        b.len() <= u32::MAX,
        b.len() != 1,
        b.len() != 2,
        b.len() != 4,
        !(addr % 8 == 0 && b.len() == 8),
    ensures
        reconstruct(le_words(b), addr, b.len() as u32) == Ok::<MemoryValue, ProtocolError>(
            MemoryValue::Bytes(b),
        ),
{
    let len = b.len() as u32;
    let ws = le_words(b);
    let all = words_to_bytes(ws);
    lemma_le_words_round_trip(b);
    assert(all.len() >= addr as int % 4 + len);
    assert forall|i: int| 0 <= i < len implies all.subrange(0, len as int)[i] == b[i] by {
        assert(all[i] == byte_or_zero(b, i));
    }
    assert(all.subrange(0, len as int) =~= b);
}

/// Law: a text encoded by the codec (with its terminating NUL) and decoded
/// at a word-aligned address reads back as exactly those bytes, whenever
/// its length does not make the decode read a typed value instead.
pub proof fn lemma_text_round_trip(t: Seq<u8>, addr: u32)
    requires
        addr % 4 == 0,
        t.len() + 1 <= u32::MAX,
        t.len() != 1,
        t.len() != 3,
        !(addr % 8 == 0 && t.len() == 7),
        t.len() != 0,
    ensures
        reconstruct(le_words(t + seq![0u8]), addr, (t.len() + 1) as u32) == Ok::<
            MemoryValue,
            ProtocolError,
        >(MemoryValue::Bytes(t + seq![0u8])),
{
    lemma_bytes_round_trip(t + seq![0u8], addr);
}

/// Law: the register dump's decoding reads nothing but its own lines: two
/// transcripts that agree on an `n`-line slice decode that slice to the
/// same register values, wherever the slice stands in each.
pub proof fn lemma_register_decode_depends_on_slice(
    l1: Seq<Seq<u8>>,
    s1: int,
    l2: Seq<Seq<u8>>,
    s2: int,
    n: int,
)
    requires
        0 <= s1,
        0 <= s2,
        0 <= n,
        s1 + n <= l1.len(),
        s2 + n <= l2.len(),
        forall|k: int| 0 <= k < n ==> #[trigger] l1[s1 + k] == l2[s2 + k],
    ensures
        reg_lines_values(l1, s1, n) == reg_lines_values(l2, s2, n),
    decreases n,
{
    if n > 0 {
        assert(l1[s1 + 0] == l2[s2 + 0]);
        assert forall|k: int| 0 <= k < n - 1 implies #[trigger] l1[s1 + 1 + k] == l2[s2 + 1 + k] by {
            assert(l1[s1 + (k + 1)] == l2[s2 + (k + 1)]);
        }
        lemma_register_decode_depends_on_slice(l1, s1 + 1, l2, s2 + 1, n - 1);
    }
}

/// Law: the register dump's decoding is a pure function of the transcript
/// slice, so re-parsing the same slice yields the same bank.
pub proof fn lemma_register_decode_idempotent(
    lines: Seq<Seq<u8>>,
    start: int,
    r1: Result<Seq<u32>, ProtocolError>,
    r2: Result<Seq<u32>, ProtocolError>,
)
    requires
        0 <= start,
        start + 8 <= lines.len(),
        r1 == reg_lines_values(lines, start, 8),
        r2 == reg_lines_values(lines, start, 8),
    ensures
        r1 == r2,
{
    lemma_register_decode_depends_on_slice(lines, start, lines, start, 8);
}

} // verus!
