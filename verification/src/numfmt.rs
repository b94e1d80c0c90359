//! Decimal and hexadecimal rendering of machine integers, with the parsing
//! direction proved inverse on canonical digit strings.

use vstd::prelude::*;

verus! {

/// Character for one decimal digit value.
pub open spec fn dec_digit(d: int) -> char {
    if d == 0 { '0' }
    else if d == 1 { '1' }
    else if d == 2 { '2' }
    else if d == 3 { '3' }
    else if d == 4 { '4' }
    else if d == 5 { '5' }
    else if d == 6 { '6' }
    else if d == 7 { '7' }
    else if d == 8 { '8' }
    else { '9' }
}

/// Canonical decimal rendering of a natural number: no sign, no leading zero.
pub open spec fn dec_of(n: nat) -> Seq<char>
    decreases n,
{
    if n < 10 {
        seq![dec_digit(n as int)]
    } else {
        dec_of(n / 10).push(dec_digit((n % 10) as int))
    }
}

pub open spec fn is_dec_digit(c: char) -> bool {
    '0' <= c && c <= '9'
}

pub open spec fn digit_val(c: char) -> int {
    c as int - '0' as int
}

pub open spec fn all_dec_digits(s: Seq<char>) -> bool {
    forall|i: int| 0 <= i < s.len() ==> is_dec_digit(#[trigger] s[i])
}

/// Value of a digit string, most significant digit first.
pub open spec fn val_of(s: Seq<char>) -> int
    decreases s.len(),
{
    if s.len() == 0 {
        0
    } else {
        val_of(s.drop_last()) * 10 + digit_val(s.last())
    }
}

/// A digit string is canonical when it is non-empty and carries no leading zero.
pub open spec fn canonical_dec(s: Seq<char>) -> bool {
    &&& s.len() > 0
    &&& all_dec_digits(s)
    &&& (s[0] == '0' ==> s.len() == 1)
}

pub proof fn lemma_dec_of_digits(n: nat)
    ensures
        dec_of(n).len() >= 1,
        all_dec_digits(dec_of(n)),
        canonical_dec(dec_of(n)),
        dec_of(n)[0] == '0' <==> n == 0,
    decreases n,
{
    if n >= 10 {
        lemma_dec_of_digits(n / 10);
        assert forall|i: int| 0 <= i < dec_of(n).len() implies is_dec_digit(
            #[trigger] dec_of(n)[i],
        ) by {
            if i < dec_of(n / 10).len() {
                assert(dec_of(n)[i] == dec_of(n / 10)[i]);
            }
        }
    }
}

proof fn lemma_digit_val_dec_digit(d: int)
    requires
        0 <= d < 10,
    ensures
        digit_val(dec_digit(d)) == d,
        is_dec_digit(dec_digit(d)),
{
    assert(digit_val('0') == 0 && digit_val('1') == 1 && digit_val('2') == 2 && digit_val('3') == 3
        && digit_val('4') == 4 && digit_val('5') == 5 && digit_val('6') == 6 && digit_val('7') == 7
        && digit_val('8') == 8 && digit_val('9') == 9);
}

pub proof fn lemma_val_of_dec_of(n: nat)
    ensures
        val_of(dec_of(n)) == n,
    decreases n,
{
    if n < 10 {
        lemma_digit_val_dec_digit(n as int);
        assert(dec_of(n).len() == 1);
        assert(dec_of(n).last() == dec_digit(n as int));
        assert(dec_of(n).drop_last() =~= Seq::<char>::empty());
        assert(val_of(dec_of(n)) == val_of(Seq::<char>::empty()) * 10 + digit_val(
            dec_digit(n as int),
        ));
    } else {
        lemma_val_of_dec_of(n / 10);
        lemma_digit_val_dec_digit((n % 10) as int);
        assert(dec_of(n).last() == dec_digit((n % 10) as int));
        assert(dec_of(n).drop_last() =~= dec_of(n / 10));
        assert(val_of(dec_of(n)) == val_of(dec_of(n / 10)) * 10 + digit_val(
            dec_digit((n % 10) as int),
        ));
        assert(val_of(dec_of(n)) == (n / 10) * 10 + n % 10);
    }
}

proof fn lemma_char_eq_by_val(a: char, b: char)
    requires
        a as u32 == b as u32,
    ensures
        a == b,
{
    vstd::utf8::char_u32_cast(a, a as u32);
    vstd::utf8::char_u32_cast(b, b as u32);
}

proof fn lemma_dec_digit_digit_val(c: char)
    requires
        is_dec_digit(c),
    ensures
        dec_digit(digit_val(c)) == c,
        0 <= digit_val(c) < 10,
{
    let d = digit_val(c);
    assert('0' as u32 == 48 && '1' as u32 == 49 && '2' as u32 == 50 && '3' as u32 == 51
        && '4' as u32 == 52 && '5' as u32 == 53 && '6' as u32 == 54 && '7' as u32 == 55
        && '8' as u32 == 56 && '9' as u32 == 57);
    assert(dec_digit(d) as u32 == c as u32);
    lemma_char_eq_by_val(dec_digit(d), c);
}

/// A canonical digit string is the rendering of its own value.
pub proof fn lemma_dec_of_val_of(s: Seq<char>)
    requires
        canonical_dec(s),
    ensures
        val_of(s) >= 0,
        dec_of(val_of(s) as nat) == s,
    decreases s.len(),
{
    if s.len() == 1 {
        assert(s.drop_last() =~= Seq::<char>::empty());
        lemma_dec_digit_digit_val(s.last());
        assert(val_of(s) == val_of(s.drop_last()) * 10 + digit_val(s.last()));
        assert(val_of(Seq::<char>::empty()) == 0);
        assert(val_of(s) == digit_val(s.last()));
        assert(dec_of(val_of(s) as nat) =~= s);
    } else {
        let head = s.drop_last();
        assert(canonical_dec(head)) by {
            assert(forall|i: int| 0 <= i < head.len() ==> head[i] == s[i]);
        }
        lemma_dec_of_val_of(head);
        assert(val_of(head) >= 1) by {
            if val_of(head) == 0 {
                assert(dec_of(0nat) =~= seq!['0']);
                assert(head[0] == '0');
            }
        }
        lemma_dec_digit_digit_val(s.last());
        assert(0 <= digit_val(s.last()) < 10);
        assert(val_of(s) >= 10);
        assert(val_of(s) as nat / 10 == val_of(head)) by {
            assert(val_of(s) == val_of(head) * 10 + digit_val(s.last()));
        }
        assert(val_of(s) as nat % 10 == digit_val(s.last()));
        assert(dec_of(val_of(s) as nat) =~= s);
    }
}

/// Two numbers with the same rendering are equal.
pub proof fn lemma_dec_of_injective(a: nat, b: nat)
    requires
        dec_of(a) == dec_of(b),
    ensures
        a == b,
{
    lemma_val_of_dec_of(a);
    lemma_val_of_dec_of(b);
}

fn digit_char(d: u64) -> (c: char)
    requires
        d < 10,
    ensures
        c == dec_digit(d as int),
{
    if d == 0 { '0' }
    else if d == 1 { '1' }
    else if d == 2 { '2' }
    else if d == 3 { '3' }
    else if d == 4 { '4' }
    else if d == 5 { '5' }
    else if d == 6 { '6' }
    else if d == 7 { '7' }
    else if d == 8 { '8' }
    else { '9' }
}

/// Append the canonical decimal rendering of `n` to `out`.
pub fn push_dec(n: u64, out: &mut Vec<char>)
    ensures
        final(out)@ == old(out)@ + dec_of(n as nat),
    decreases n,
{
    if n < 10 {
        let c = digit_char(n);
        out.push(c);
        assert(out@ =~= old(out)@ + dec_of(n as nat));
    } else {
        push_dec(n / 10, out);
        let c = digit_char(n % 10);
        out.push(c);
        assert(out@ =~= old(out)@ + dec_of(n as nat));
    }
}

/// Parse a canonical decimal digit string; accepts exactly the strings
/// `dec_of` produces for values that fit in a `u64`.
pub fn parse_dec(s: &Vec<char>) -> (r: Option<u64>)
    ensures
        r matches Some(n) ==> s@ == dec_of(n as nat),
        forall|n: u64| s@ == dec_of(n as nat) ==> r == Some(n),
{
    if s.len() == 0 {
        proof {
            assert forall|n: u64| s@ != dec_of(n as nat) by {
                lemma_dec_of_digits(n as nat);
            }
        }
        return None;
    }
    if s.len() > 1 && s[0] == '0' {
        proof {
            assert forall|n: u64| s@ != dec_of(n as nat) by {
                lemma_dec_of_digits(n as nat);
            }
        }
        return None;
    }
    let mut acc: u64 = 0;
    let mut i: usize = 0;
    while i < s.len()
        invariant
            0 <= i <= s@.len(),
            all_dec_digits(s@.take(i as int)),
            acc == val_of(s@.take(i as int)),
            s@.len() > 1 ==> s@[0] != '0',
            s@.len() >= 1,
        decreases s@.len() - i,
    {
        let c = s[i];
        if !('0' <= c && c <= '9') {
            proof {
                assert(!is_dec_digit(s@[i as int]));
                assert forall|n: u64| s@ != dec_of(n as nat) by {
                    lemma_dec_of_digits(n as nat);
                }
            }
            return None;
        }
        let d: u64 = (c as u32 as u64) - 48;
        if acc > (u64::MAX - d) / 10 {
            proof {
                assert forall|n: u64| s@ != dec_of(n as nat) by {
                    if s@ == dec_of(n as nat) {
                        lemma_canonical_prefix_bound(s@, i as int, n);
                    }
                }
            }
            return None;
        }
        proof {
            assert(s@.take(i + 1).drop_last() =~= s@.take(i as int));
        }
        acc = acc * 10 + d;
        i = i + 1;
    }
    proof {
        assert(s@.take(i as int) =~= s@);
        assert(canonical_dec(s@));
        lemma_dec_of_val_of(s@);
        assert forall|n: u64| s@ == dec_of(n as nat) implies Some(acc) == Some::<u64>(n) by {
            lemma_dec_of_injective(acc as nat, n as nat);
        }
    }
    Some(acc)
}

/// If a rendering of `n: u64` has a strict digit prefix of value `v`, then
/// extending that prefix by one digit stays within `u64` range.
proof fn lemma_canonical_prefix_bound(s: Seq<char>, i: int, n: u64)
    requires
        s == dec_of(n as nat),
        0 <= i < s.len(),
    ensures
        val_of(s.take(i)) * 10 + digit_val(s[i]) <= u64::MAX,
    decreases s.len() - i,
{
    lemma_val_of_dec_of(n as nat);
    if i + 1 == s.len() {
        assert(s.take(i) =~= s.drop_last());
        assert(s[i] == s.last());
        assert(val_of(s.take(i)) * 10 + digit_val(s[i]) == val_of(s) == n);
    } else {
        lemma_canonical_prefix_bound(s, i + 1, n);
        lemma_dec_of_digits(n as nat);
        let t1 = s.take(i + 1);
        assert(t1.drop_last() =~= s.take(i));
        assert(t1.last() == s[i]);
        assert(val_of(s.take(i + 1)) == val_of(s.take(i)) * 10 + digit_val(s[i]));
        assert(is_dec_digit(s[i + 1]));
        assert(digit_val(s[i + 1]) >= 0);
        assert(val_of(s.take(i + 1)) * 10 + digit_val(s[i + 1]) <= u64::MAX);
        assert(val_of(s.take(i + 1)) <= u64::MAX / 10) by (nonlinear_arith)
            requires
                val_of(s.take(i + 1)) * 10 + digit_val(s[i + 1]) <= u64::MAX,
                digit_val(s[i + 1]) >= 0,
        ;
    }
}

/// Lower-case hex character for one nibble.
pub open spec fn hex_digit(d: int) -> char {
    if d == 0 { '0' }
    else if d == 1 { '1' }
    else if d == 2 { '2' }
    else if d == 3 { '3' }
    else if d == 4 { '4' }
    else if d == 5 { '5' }
    else if d == 6 { '6' }
    else if d == 7 { '7' }
    else if d == 8 { '8' }
    else if d == 9 { '9' }
    else if d == 10 { 'a' }
    else if d == 11 { 'b' }
    else if d == 12 { 'c' }
    else if d == 13 { 'd' }
    else if d == 14 { 'e' }
    else { 'f' }
}

/// Upper-case hex character for one nibble.
pub open spec fn hex_digit_upper(d: int) -> char {
    if d < 10 {
        dec_digit(d)
    } else if d == 10 { 'A' }
    else if d == 11 { 'B' }
    else if d == 12 { 'C' }
    else if d == 13 { 'D' }
    else if d == 14 { 'E' }
    else { 'F' }
}

/// Upper-case hex character of a nibble.
pub fn hex_char_upper(d: u8) -> (c: char)
    requires
        d < 16,
    ensures
        c == hex_digit_upper(d as int),
{
    if d < 10 {
        digit_char(d as u64)
    } else if d == 10 { 'A' }
    else if d == 11 { 'B' }
    else if d == 12 { 'C' }
    else if d == 13 { 'D' }
    else if d == 14 { 'E' }
    else { 'F' }
}

/// Lower-case hex rendering, two characters per byte.
pub open spec fn hex_of(bytes: Seq<u8>) -> Seq<char> {
    Seq::new(bytes.len() * 2, |i: int|
        if i % 2 == 0 {
            hex_digit(bytes[i / 2] as int / 16)
        } else {
            hex_digit(bytes[i / 2] as int % 16)
        }
    )
}

pub fn hex_char(d: u8) -> (c: char)
    requires
        d < 16,
    ensures
        c == hex_digit(d as int),
{
    if d < 10 {
        digit_char(d as u64)
    } else if d == 10 { 'a' }
    else if d == 11 { 'b' }
    else if d == 12 { 'c' }
    else if d == 13 { 'd' }
    else if d == 14 { 'e' }
    else { 'f' }
}

/// Append the lower-case hex rendering of `bytes` to `out`.
pub fn push_hex(bytes: &Vec<u8>, out: &mut Vec<char>)
    ensures
        final(out)@ == old(out)@ + hex_of(bytes@),
{
    let mut i: usize = 0;
    while i < bytes.len()
        invariant
            0 <= i <= bytes@.len(),
            out@ == old(out)@ + hex_of(bytes@.take(i as int)),
        decreases bytes@.len() - i,
    {
        let b = bytes[i];
        out.push(hex_char(b / 16));
        out.push(hex_char(b % 16));
        proof {
            assert(out@ =~= old(out)@ + hex_of(bytes@.take(i + 1)));
        }
        i = i + 1;
    }
    proof {
        assert(bytes@.take(bytes@.len() as int) =~= bytes@);
    }
}


/// Lower-case hexadecimal digit characters.
pub open spec fn is_hex_char(c: char) -> bool {
    is_dec_digit(c) || ('a' <= c && c <= 'f')
}

/// Value of a lower-case hexadecimal digit character.
pub open spec fn hex_val(c: char) -> int {
    if is_dec_digit(c) {
        digit_val(c)
    } else {
        c as int - 'a' as int + 10
    }
}

pub proof fn lemma_hex_digit_val(d: int)
    requires
        0 <= d < 16,
    ensures
        hex_val(hex_digit(d)) == d,
        is_hex_char(hex_digit(d)),
{
    assert(digit_val('0') == 0 && digit_val('1') == 1 && digit_val('2') == 2 && digit_val('3') == 3
        && digit_val('4') == 4 && digit_val('5') == 5 && digit_val('6') == 6 && digit_val('7') == 7
        && digit_val('8') == 8 && digit_val('9') == 9);
    assert('a' as int == 97 && 'b' as int == 98 && 'c' as int == 99 && 'd' as int == 100
        && 'e' as int == 101 && 'f' as int == 102);
}

/// Parse one lower-case hexadecimal digit; accepts exactly what `hex_digit`
/// produces.
pub fn parse_hex_char(c: char) -> (r: Option<u8>)
    ensures
        r matches Some(v) ==> v < 16 && is_hex_char(c) && hex_val(c) == v as int,
        forall|d: int| 0 <= d < 16 && c == hex_digit(d) ==> (r matches Some(v) && v as int == d),
{
    proof {
        assert forall|d: int| 0 <= d < 16 implies is_hex_char(#[trigger] hex_digit(d)) && hex_val(
            hex_digit(d),
        ) == d by {
            lemma_hex_digit_val(d);
        }
    }
    if '0' <= c && c <= '9' {
        Some(((c as u32) - 48) as u8)
    } else if 'a' <= c && c <= 'f' {
        Some(((c as u32) - 97 + 10) as u8)
    } else {
        proof {
            assert forall|d: int| 0 <= d < 16 implies c != hex_digit(d) by {
                lemma_hex_digit_val(d);
            }
        }
        None
    }
}

} // verus!
