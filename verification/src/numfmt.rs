//! Decimal and hexadecimal rendering of unsigned integers, used for the
//! legend indices and the boundary address annotations.

use vstd::prelude::*;

verus! {

pub open spec fn dec_digit(d: int) -> char {
    if d == 0 {
        '0'
    } else if d == 1 {
        '1'
    } else if d == 2 {
        '2'
    } else if d == 3 {
        '3'
    } else if d == 4 {
        '4'
    } else if d == 5 {
        '5'
    } else if d == 6 {
        '6'
    } else if d == 7 {
        '7'
    } else if d == 8 {
        '8'
    } else {
        '9'
    }
}

/// The decimal digits of `n`, most significant first.
pub open spec fn spec_dec(n: int) -> Seq<char>
    decreases n,
{
    if n < 10 {
        seq![dec_digit(n)]
    } else {
        spec_dec(n / 10).push(dec_digit(n % 10))
    }
}

pub open spec fn hex_digit(d: int) -> char {
    if d < 10 {
        dec_digit(d)
    } else if d == 10 {
        'a'
    } else if d == 11 {
        'b'
    } else if d == 12 {
        'c'
    } else if d == 13 {
        'd'
    } else if d == 14 {
        'e'
    } else {
        'f'
    }
}

/// The hexadecimal digits of `n`, most significant first.
pub open spec fn spec_hex(n: int) -> Seq<char>
    decreases n,
{
    if n < 16 {
        seq![hex_digit(n)]
    } else {
        spec_hex(n / 16).push(hex_digit(n % 16))
    }
}

/// `n` as `0x` plus its hex digits, zero-padded to at least eight of them.
pub open spec fn spec_hex_annot(n: int) -> Seq<char> {
    let d = spec_hex(n);
    let pad = if d.len() >= 8 {
        0int
    } else {
        8 - d.len()
    };
    seq!['0', 'x'] + Seq::new(pad as nat, |i: int| '0') + d
}

fn dec_digit_str(d: usize) -> (r: &'static str)
    requires
        d < 10,
    ensures
        r@ == seq![dec_digit(d as int)],
{
    let r: &'static str = match d {
        0 => "0",
        1 => "1",
        2 => "2",
        3 => "3",
        4 => "4",
        5 => "5",
        6 => "6",
        7 => "7",
        8 => "8",
        _ => "9",
    };
    proof {
        reveal_strlit("0");
        reveal_strlit("1");
        reveal_strlit("2");
        reveal_strlit("3");
        reveal_strlit("4");
        reveal_strlit("5");
        reveal_strlit("6");
        reveal_strlit("7");
        reveal_strlit("8");
        reveal_strlit("9");
        assert(r@ =~= seq![dec_digit(d as int)]);
    }
    r
}

fn hex_digit_str(d: usize) -> (r: &'static str)
    requires
        d < 16,
    ensures
        r@ == seq![hex_digit(d as int)],
{
    if d < 10 {
        dec_digit_str(d)
    } else {
        let r: &'static str = match d {
            10 => "a",
            11 => "b",
            12 => "c",
            13 => "d",
            14 => "e",
            _ => "f",
        };
        proof {
            reveal_strlit("a");
            reveal_strlit("b");
            reveal_strlit("c");
            reveal_strlit("d");
            reveal_strlit("e");
            reveal_strlit("f");
            assert(r@ =~= seq![hex_digit(d as int)]);
        }
        r
    }
}

/// `n` in decimal.
pub fn dec_string(n: usize) -> (r: String)
    ensures
        r@ == spec_dec(n as int),
    decreases n,
{
    if n < 10 {
        String::from_str(dec_digit_str(n))
    } else {
        let mut s = dec_string(n / 10);
        s.append(dec_digit_str(n % 10));
        proof {
            assert(s@ =~= spec_dec(n as int / 10).push(dec_digit(n as int % 10)));
        }
        s
    }
}

/// `n` in hexadecimal, digits only.
pub fn hex_string(n: usize) -> (r: String)
    ensures
        r@ == spec_hex(n as int),
    decreases n,
{
    if n < 16 {
        String::from_str(hex_digit_str(n))
    } else {
        let mut s = hex_string(n / 16);
        s.append(hex_digit_str(n % 16));
        proof {
            assert(s@ =~= spec_hex(n as int / 16).push(hex_digit(n as int % 16)));
        }
        s
    }
}

spec fn pow16(k: nat) -> int
    decreases k,
{
    if k == 0 {
        1
    } else {
        16 * pow16((k - 1) as nat)
    }
}

/// A value below the k-th power of 16 has at most k hex digits.
proof fn lemma_hex_len_bound(n: int, k: nat)
    requires
        0 <= n,
        1 <= k,
        n < pow16(k),
    ensures
        spec_hex(n).len() <= k,
    decreases k,
{
    if n >= 16 {
        assert(pow16(k) == 16 * pow16((k - 1) as nat));
        assert(n / 16 < pow16((k - 1) as nat));
        lemma_hex_len_bound(n / 16, (k - 1) as nat);
    }
}

/// Any machine word has at most 16 hex digits.
proof fn lemma_hex_len_word(n: usize)
    ensures
        1 <= spec_hex(n as int).len() <= 16,
{
    assert(pow16(0) == 1);
    assert(pow16(1) == 16);
    assert(pow16(2) == 0x100);
    assert(pow16(3) == 0x1000);
    assert(pow16(4) == 0x10000);
    assert(pow16(5) == 0x100000);
    assert(pow16(6) == 0x1000000);
    assert(pow16(7) == 0x10000000);
    assert(pow16(8) == 0x100000000);
    assert(pow16(9) == 0x1000000000);
    assert(pow16(10) == 0x10000000000);
    assert(pow16(11) == 0x100000000000);
    assert(pow16(12) == 0x1000000000000);
    assert(pow16(13) == 0x10000000000000);
    assert(pow16(14) == 0x100000000000000);
    assert(pow16(15) == 0x1000000000000000);
    assert(pow16(16) == 0x10000000000000000);
    lemma_hex_len_bound(n as int, 16);
    if n < 16 {
    } else {
        assert(spec_hex(n as int) == spec_hex(n as int / 16).push(hex_digit(n as int % 16)));
    }
}

/// Number of hex digits of `n`.
fn hex_len(n: usize) -> (r: usize)
    ensures
        r == spec_hex(n as int).len(),
        1 <= r <= 16,
    decreases n,
{
    proof {
        lemma_hex_len_word(n);
    }
    if n < 16 {
        1
    } else {
        let r = 1 + hex_len(n / 16);
        proof {
            assert(spec_hex(n as int) == spec_hex(n as int / 16).push(hex_digit(n as int % 16)));
        }
        r
    }
}

/// `n` formatted as a zero-padded hexadecimal address: `0x` followed by
/// at least eight digits.
pub fn hex_annot(n: usize) -> (r: String)
    ensures
        r@ == spec_hex_annot(n as int),
{
    let mut s = String::from_str("0x");
    proof {
        reveal_strlit("0x");
        reveal_strlit("0");
        assert(s@ =~= seq!['0', 'x']);
    }
    let digits = hex_len(n);
    let ghost pad = if spec_hex(n as int).len() >= 8 {
        0int
    } else {
        8 - spec_hex(n as int).len()
    };
    let mut k: usize = digits;
    while k < 8
        invariant
            digits == spec_hex(n as int).len(),
            digits <= k <= 8 || (digits > 8 && k == digits),
            k >= digits,
            s@ =~= seq!['0', 'x'] + Seq::new((k - digits) as nat, |i: int| '0'),
        decreases 8 - k,
    {
        s.append("0");
        proof {
            reveal_strlit("0");
            assert(s@ =~= seq!['0', 'x'] + Seq::new((k + 1 - digits) as nat, |i: int| '0'));
        }
        k = k + 1;
    }
    let h = hex_string(n);
    s.append(h.as_str());
    proof {
        assert(s@ =~= spec_hex_annot(n as int));
    }
    s
}

} // verus!
