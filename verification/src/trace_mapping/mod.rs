//! Mapping hardware traces to MIR traces: the MIR control-flow graph read from a binary.

pub mod bytes;
pub mod errors;
pub mod mir_cfg;

use vstd::prelude::*;

verus! {

/// A location in the MIR: a basic block of a definition of a crate.
#[derive(Clone, Copy, PartialEq, Eq, Structural, Hash)]
pub struct MirLoc {
    pub crate_hash: u64,
    pub idx: u32,
    pub bb: u32,
}

/// The 128-bit key of a definition: the crate hash above the definition index.
pub open spec fn def_key(crate_hash: u64, idx: u32) -> u128 {
    ((crate_hash as u128) << 32u128) | (idx as u128)
}

impl MirLoc {
    pub fn new(crate_hash: u64, idx: u32, bb: u32) -> (loc: Self)
        ensures
            loc.crate_hash == crate_hash,
            loc.idx == idx,
            loc.bb == bb,
    {
        Self { crate_hash, idx, bb }
    }

    pub fn _crate_hash(&self) -> (r: u64)
        ensures
            r == self.crate_hash,
    {
        self.crate_hash
    }

    pub fn _def_idx(&self) -> (r: u32)
        ensures
            r == self.idx,
    {
        self.idx
    }

    pub fn _basic_block(&self) -> (r: u32)
        ensures
            r == self.bb,
    {
        self.bb
    }

    /// The 128-bit key of this location: crate hash, definition index and block, from the
    /// high bits down.
    pub open spec fn spec_key(self) -> u128 {
        ((self.crate_hash as u128) << 64u128) | ((self.idx as u128) << 32u128) | (self.bb as u128)
    }

    /// Computes this location's key.
    pub fn key(&self) -> (k: u128)
        ensures
            k == self.spec_key(),
    {
        ((self.crate_hash as u128) << 64u128) | ((self.idx as u128) << 32u128) | (self.bb as u128)
    }

    /// Computes the key of this location's definition.
    pub fn def_key(&self) -> (k: u128)
        ensures
            k == def_key(self.crate_hash, self.idx),
    {
        ((self.crate_hash as u128) << 32u128) | (self.idx as u128)
    }
}

/// Two locations with the same key are the same location.
pub proof fn lemma_key_injective(a: MirLoc, b: MirLoc)
    ensures
        a.spec_key() == b.spec_key() ==> a == b,
{
    let (ah, ai, ab) = (a.crate_hash, a.idx, a.bb);
    let (bh, bi, bb) = (b.crate_hash, b.idx, b.bb);
    assert(((ah as u128) << 64u128) | ((ai as u128) << 32u128) | (ab as u128) == ((bh as u128)
        << 64u128) | ((bi as u128) << 32u128) | (bb as u128) ==> ah == bh && ai == bi && ab == bb)
        by (bit_vector);
}

/// Two definitions with the same key are the same definition.
pub proof fn lemma_def_key_injective(h1: u64, i1: u32, h2: u64, i2: u32)
    ensures
        def_key(h1, i1) == def_key(h2, i2) ==> h1 == h2 && i1 == i2,
{
    assert(((h1 as u128) << 32u128) | (i1 as u128) == ((h2 as u128) << 32u128) | (i2 as u128)
        ==> h1 == h2 && i1 == i2) by (bit_vector);
}


/// The character of a digit below 16: `0`-`9`, then `a`-`f`.
pub open spec fn digit_char(d: nat) -> char {
    if d == 0 { '0' } else if d == 1 { '1' } else if d == 2 { '2' } else if d == 3 { '3' }
    else if d == 4 { '4' } else if d == 5 { '5' } else if d == 6 { '6' } else if d == 7 { '7' }
    else if d == 8 { '8' } else if d == 9 { '9' } else if d == 10 { 'a' } else if d == 11 { 'b' }
    else if d == 12 { 'c' } else if d == 13 { 'd' } else if d == 14 { 'e' } else { 'f' }
}

/// `n` in lower-case hexadecimal, without leading zeros.
pub open spec fn hex_digits(n: nat) -> Seq<char>
    decreases n,
{
    if n < 16 {
        seq![digit_char(n)]
    } else {
        hex_digits(n / 16).push(digit_char(n % 16))
    }
}

/// `n` in decimal, without leading zeros.
pub open spec fn dec_digits(n: nat) -> Seq<char>
    decreases n,
{
    if n < 10 {
        seq![digit_char(n)]
    } else {
        dec_digits(n / 10).push(digit_char(n % 10))
    }
}

/// `digits` with zeros in front up to `width` characters.
pub open spec fn zero_padded(digits: Seq<char>, width: nat) -> Seq<char> {
    if digits.len() >= width {
        digits
    } else {
        Seq::new((width - digits.len()) as nat, |i: int| '0') + digits
    }
}

/// The text that shows a location: `MirLoc(0x<crate hash, at least 8 hex digits>, <definition
/// index>, <block>)`.
pub open spec fn mir_loc_text(loc: MirLoc) -> Seq<char> {
    seq!['M', 'i', 'r', 'L', 'o', 'c', '(', '0', 'x'] + zero_padded(
        hex_digits(loc.crate_hash as nat),
        8,
    ) + seq![',', ' '] + dec_digits(loc.idx as nat) + seq![',', ' '] + dec_digits(loc.bb as nat)
        + seq![')']
}

fn digit(d: u64) -> (c: char)
    requires
        d < 16,
    ensures
        c == digit_char(d as nat),
{
    match d {
        0 => '0',
        1 => '1',
        2 => '2',
        3 => '3',
        4 => '4',
        5 => '5',
        6 => '6',
        7 => '7',
        8 => '8',
        9 => '9',
        10 => 'a',
        11 => 'b',
        12 => 'c',
        13 => 'd',
        14 => 'e',
        _ => 'f',
    }
}

fn push_hex(out: &mut Vec<char>, n: u64)
    ensures
        final(out)@ == old(out)@ + hex_digits(n as nat),
    decreases n,
{
    if n >= 16 {
        push_hex(out, n / 16);
    }
    out.push(digit(n % 16));
    proof {
        assert(out@ =~= old(out)@ + hex_digits(n as nat));
    }
}

fn push_dec(out: &mut Vec<char>, n: u64)
    ensures
        final(out)@ == old(out)@ + dec_digits(n as nat),
    decreases n,
{
    if n >= 10 {
        push_dec(out, n / 10);
    }
    out.push(digit(n % 10));
    proof {
        assert(out@ =~= old(out)@ + dec_digits(n as nat));
    }
}

/// Calls `String::from_iter` (through `collect`) on the characters: the string of those
/// characters, in order.
#[verifier::external_body]
fn string_of_chars(chars: Vec<char>) -> (s: String)
    ensures
        s@ == chars@,
{
    chars.into_iter().collect()
}

impl MirLoc {
    /// The text that shows this location, as `mir_loc_text` says.
    pub fn debug_text(&self) -> (s: String)
        ensures
            s@ == mir_loc_text(*self),
    {
        let mut out: Vec<char> = Vec::new();
        out.push('M');
        out.push('i');
        out.push('r');
        out.push('L');
        out.push('o');
        out.push('c');
        out.push('(');
        out.push('0');
        out.push('x');
        let mut hex: Vec<char> = Vec::new();
        push_hex(&mut hex, self.crate_hash);
        let ghost digits = hex@;
        let mut pad: Vec<char> = Vec::new();
        while pad.len() + hex.len() < 8
            invariant
                hex@ == digits,
                forall|i: int| 0 <= i < pad@.len() ==> pad@[i] == '0',
                pad.len() + hex.len() <= 8 || pad.len() == 0,
            decreases 8 - pad.len(),
        {
            pad.push('0');
        }
        assert(pad@ + hex@ =~= zero_padded(hex_digits(self.crate_hash as nat), 8));
        out.append(&mut pad);
        out.append(&mut hex);
        out.push(',');
        out.push(' ');
        push_dec(&mut out, self.idx as u64);
        out.push(',');
        out.push(' ');
        push_dec(&mut out, self.bb as u64);
        out.push(')');
        assert(out@ =~= mir_loc_text(*self));
        string_of_chars(out)
    }
}


/// The value of a digit character: `0`-`9` and `a`-`f` stand for 0 to 15; any other character
/// for 16, which is no digit in base 16 or below.
pub open spec fn digit_value(c: char) -> nat {
    let code = c as int;
    if 48 <= code <= 57 {
        (code - 48) as nat
    } else if 97 <= code <= 102 {
        (code - 87) as nat
    } else {
        16
    }
}

/// Every character of `s` is a digit in base `base`.
pub open spec fn all_digits(s: Seq<char>, base: nat) -> bool {
    forall|i: int| 0 <= i < s.len() ==> digit_value(#[trigger] s[i]) < base
}

/// The number that the digits `s` write in base `base`, most significant digit first.
pub open spec fn numeral_value(s: Seq<char>, base: nat) -> nat
    decreases s.len(),
{
    if s.len() == 0 {
        0
    } else {
        numeral_value(s.drop_last(), base) * base + digit_value(s.last())
    }
}

/// `s` is the numeral of `n` in base `base` with no leading zero: one digit at least, every
/// character a digit, the value `n`, and a first digit that is zero only for `n == 0` alone.
pub open spec fn numeral_of(s: Seq<char>, base: nat, n: nat) -> bool {
    &&& s.len() >= 1
    &&& all_digits(s, base)
    &&& numeral_value(s, base) == n
    &&& (s.len() > 1 ==> digit_value(s[0]) != 0)
}

proof fn lemma_digit_value(d: nat)
    requires
        d < 16,
    ensures
        digit_value(digit_char(d)) == d,
{
}

proof fn lemma_hex_numeral(n: nat)
    ensures
        numeral_of(hex_digits(n), 16, n),
        n > 0 ==> digit_value(hex_digits(n)[0]) != 0,
    decreases n,
{
    lemma_digit_value(n % 16);
    if n >= 16 {
        lemma_hex_numeral(n / 16);
        vstd::arithmetic::div_mod::lemma_fundamental_div_mod(n as int, 16);
        let s = hex_digits(n);
        assert(s.drop_last() =~= hex_digits(n / 16));
        assert(s.last() == digit_char(n % 16));
        assert(numeral_value(s, 16) == numeral_value(s.drop_last(), 16) * 16 + digit_value(s.last()));
        assert(numeral_value(s.drop_last(), 16) == n / 16);
        assert(s[0] == hex_digits(n / 16)[0]);
        assert(all_digits(s, 16)) by {
            assert forall|i: int| 0 <= i < s.len() implies digit_value(#[trigger] s[i]) < 16 by {
                if i < s.len() - 1 {
                    assert(s[i] == hex_digits(n / 16)[i]);
                }
            }
        }
    } else {
        let s = hex_digits(n);
        assert(s.drop_last() =~= Seq::<char>::empty());
        assert(numeral_value(s.drop_last(), 16) == 0);
        assert(numeral_value(s, 16) == numeral_value(s.drop_last(), 16) * 16 + digit_value(s.last()));
        assert(n % 16 == n);
    }
}

proof fn lemma_dec_numeral(n: nat)
    ensures
        numeral_of(dec_digits(n), 10, n),
        n > 0 ==> digit_value(dec_digits(n)[0]) != 0,
    decreases n,
{
    lemma_digit_value(n % 10);
    if n >= 10 {
        lemma_dec_numeral(n / 10);
        vstd::arithmetic::div_mod::lemma_fundamental_div_mod(n as int, 10);
        let s = dec_digits(n);
        assert(s.drop_last() =~= dec_digits(n / 10));
        assert(s.last() == digit_char(n % 10));
        assert(numeral_value(s, 10) == numeral_value(s.drop_last(), 10) * 10 + digit_value(s.last()));
        assert(numeral_value(s.drop_last(), 10) == n / 10);
        assert(s[0] == dec_digits(n / 10)[0]);
        assert(all_digits(s, 10)) by {
            assert forall|i: int| 0 <= i < s.len() implies digit_value(#[trigger] s[i]) < 10 by {
                if i < s.len() - 1 {
                    assert(s[i] == dec_digits(n / 10)[i]);
                }
            }
        }
    } else {
        let s = dec_digits(n);
        assert(s.drop_last() =~= Seq::<char>::empty());
        assert(numeral_value(s.drop_last(), 10) == 0);
        assert(numeral_value(s, 10) == numeral_value(s.drop_last(), 10) * 10 + digit_value(s.last()));
        assert(n % 10 == n);
    }
}

/// The digits of a number read back as the number: `hex_digits(n)` is the base-16 numeral of
/// `n` and `dec_digits(n)` its base-10 numeral, each without leading zeros.
pub proof fn lemma_digits_read_back(n: nat)
    ensures
        numeral_of(hex_digits(n), 16, n),
        numeral_of(dec_digits(n), 10, n),
{
    lemma_hex_numeral(n);
    lemma_dec_numeral(n);
}

proof fn lemma_leading_zero(s: Seq<char>, base: nat)
    ensures
        numeral_value(seq!['0'] + s, base) == numeral_value(s, base),
    decreases s.len(),
{
    let z = seq!['0'] + s;
    if s.len() == 0 {
        assert(z.drop_last() =~= Seq::<char>::empty());
        assert(digit_value('0') == 0);
        assert(numeral_value(z.drop_last(), base) == 0);
        assert(0 * base == 0) by (nonlinear_arith);
    } else {
        assert(z.drop_last() =~= seq!['0'] + s.drop_last());
        assert(z.last() == s.last());
        lemma_leading_zero(s.drop_last(), base);
    }
}

proof fn lemma_leading_zeros(k: nat, s: Seq<char>, base: nat)
    ensures
        numeral_value(Seq::new(k, |i: int| '0') + s, base) == numeral_value(s, base),
    decreases k,
{
    if k > 0 {
        let rest = Seq::new((k - 1) as nat, |i: int| '0') + s;
        assert(Seq::new(k, |i: int| '0') + s =~= seq!['0'] + rest);
        lemma_leading_zero(rest, base);
        lemma_leading_zeros((k - 1) as nat, s, base);
    }
}

/// Padding with zeros keeps a numeral's value and digits: the padded text has at least
/// `width` characters, all digits, and reads as the same number.
pub proof fn lemma_zero_padded(digits: Seq<char>, width: nat, base: nat)
    requires
        all_digits(digits, base),
        base > 0,
    ensures
        zero_padded(digits, width).len() >= width,
        zero_padded(digits, width).len() >= digits.len(),
        all_digits(zero_padded(digits, width), base),
        numeral_value(zero_padded(digits, width), base) == numeral_value(digits, base),
        zero_padded(digits, width).len() > width ==> zero_padded(digits, width) == digits,
{
    if digits.len() < width {
        let k = (width - digits.len()) as nat;
        lemma_leading_zeros(k, digits, base);
        let p = zero_padded(digits, width);
        assert forall|i: int| 0 <= i < p.len() implies digit_value(#[trigger] p[i]) < base by {
            if i >= k {
                assert(p[i] == digits[i - k]);
            } else {
                assert(p[i] == '0');
            }
        }
    }
}

/// The text of a location shows its three numbers: it is `MirLoc(0x`, the crate hash in
/// lower-case hexadecimal with at least eight digits (no leading zero beyond those), `, `, the
/// definition index in decimal, `, `, the block in decimal (both without leading zeros), and `)`.
pub proof fn lemma_mir_loc_text_shows(loc: MirLoc)
    ensures
        exists|hash: Seq<char>, idx: Seq<char>, bb: Seq<char>|
            {
                &&& mir_loc_text(loc) == seq!['M', 'i', 'r', 'L', 'o', 'c', '(', '0', 'x'] + hash
                    + seq![',', ' '] + idx + seq![',', ' '] + bb + seq![')']
                &&& hash.len() >= 8 && all_digits(hash, 16) && numeral_value(hash, 16)
                    == loc.crate_hash
                &&& (hash.len() > 8 ==> digit_value(hash[0]) != 0)
                &&& numeral_of(idx, 10, loc.idx as nat)
                &&& numeral_of(bb, 10, loc.bb as nat)
            },
{
    let h = hex_digits(loc.crate_hash as nat);
    lemma_digits_read_back(loc.crate_hash as nat);
    lemma_digits_read_back(loc.idx as nat);
    lemma_digits_read_back(loc.bb as nat);
    lemma_zero_padded(h, 8, 16);
    let hash = zero_padded(h, 8);
    if hash.len() > 8 {
        assert(hash == h);
    }
    assert(mir_loc_text(loc) == seq!['M', 'i', 'r', 'L', 'o', 'c', '(', '0', 'x'] + hash + seq![
        ',',
        ' ',
    ] + dec_digits(loc.idx as nat) + seq![',', ' '] + dec_digits(loc.bb as nat) + seq![')']);
}

} // verus!
