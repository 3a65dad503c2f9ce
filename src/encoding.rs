//! Text forms of protocol values: basis labels and hexadecimal keys.
use crate::protocol::Basis;
use vstd::prelude::*;

verus! {

/// The one-character label of a basis: `R` or `D`.
pub open spec fn basis_label(basis: Basis) -> Seq<char> {
    match basis {
        Basis::Rectilinear => seq!['R'],
        Basis::Diagonal => seq!['D'],
    }
}

/// The value of a group of at most four bits, most significant bit first,
/// with missing low bits taken as zero.
pub open spec fn nibble_value(chunk: Seq<bool>) -> nat {
    (if chunk.len() > 0 && chunk[0] { 8nat } else { 0nat })
        + (if chunk.len() > 1 && chunk[1] { 4nat } else { 0nat })
        + (if chunk.len() > 2 && chunk[2] { 2nat } else { 0nat })
        + (if chunk.len() > 3 && chunk[3] { 1nat } else { 0nat })
}

/// The uppercase hexadecimal digit of a value below sixteen.
pub open spec fn hex_digit(v: nat) -> char {
    if v < 10 {
        ((v + 48) as u8) as char
    } else {
        ((v + 55) as u8) as char
    }
}

/// One hexadecimal digit for each group of four bits, in order.
pub open spec fn hex_of(bits: Seq<bool>) -> Seq<char>
    decreases bits.len(),
{
    if bits.len() == 0 {
        seq![]
    } else if bits.len() <= 4 {
        seq![hex_digit(nibble_value(bits))]
    } else {
        seq![hex_digit(nibble_value(bits.take(4)))] + hex_of(bits.skip(4))
    }
}

/// The label of a basis as a string.
pub fn basis_to_string(basis: &Basis) -> (r: String)
    ensures
        r@ == basis_label(*basis),
{
    match basis {
        Basis::Rectilinear => {
            proof {
                reveal_strlit("R");
            }
            String::from_str("R")
        },
        Basis::Diagonal => {
            proof {
                reveal_strlit("D");
            }
            String::from_str("D")
        },
    }
}

fn digit_str(v: u8) -> (r: &'static str)
    requires
        v < 16,
    ensures
        r@ == seq![hex_digit(v as nat)],
{
    let r = match v {
        0 => "0",
        1 => "1",
        2 => "2",
        3 => "3",
        4 => "4",
        5 => "5",
        6 => "6",
        7 => "7",
        8 => "8",
        9 => "9",
        10 => "A",
        11 => "B",
        12 => "C",
        13 => "D",
        14 => "E",
        _ => "F",
    };
    proof {
        reveal_strlit("0");
        reveal_strlit("1");
        reveal_strlit("2");
        reveal_strlit("3");
        reveal_strlit("4");
        reveal_strlit("5");
        reveal_strlit("6");
        reveal_strlit("7");
        reveal_strlit("8");
        reveal_strlit("9");
        reveal_strlit("A");
        reveal_strlit("B");
        reveal_strlit("C");
        reveal_strlit("D");
        reveal_strlit("E");
        reveal_strlit("F");
    }
    r
}

/// The uppercase hexadecimal form of a bit sequence: one digit per group of
/// four bits, most significant bit first, the last group padded with zeros.
pub fn bits_to_hex(bits: &[bool]) -> (r: String)
    ensures
        r@ == hex_of(bits@),
        r@.len() == (bits@.len() + 3) / 4,
{
    let mut hex = String::new();
    let mut start: usize = 0;
    proof {
        lemma_hex_len(bits@);
        assert(bits@.skip(0) =~= bits@);
        assert(hex@ =~= seq![]);
    }
    while start < bits.len()
        invariant
            start <= bits@.len(),
            hex@ + hex_of(bits@.skip(start as int)) == hex_of(bits@),
        decreases bits.len() - start,
    {
        let mut value: u8 = 0;
        let mut i: usize = 0;
        let rest = Ghost(bits@.skip(start as int));
        while i < 4 && i < bits.len() - start
            invariant
                start < bits@.len(),
                i <= 4,
                start + i <= bits@.len(),
                rest@ == bits@.skip(start as int),
                value as nat == nibble_value(rest@.take(i as int)),
            decreases 4 - i,
        {
            if bits[start + i] {
                value = value + (if i == 0 { 8u8 } else if i == 1 { 4u8 } else if i == 2 { 2u8 } else { 1u8 });
            }
            proof {
                assert(rest@.take(i + 1).drop_last() =~= rest@.take(i as int));
            }
            i = i + 1;
        }
        proof {
            if rest@.len() <= 4 {
                assert(rest@.take(i as int) =~= rest@);
            } else {
                assert(rest@.skip(4) =~= bits@.skip(start + 4));
            }
        }
        let d = digit_str(value);
        hex.append(d);
        if bits.len() - start <= 4 {
            proof {
                assert(bits@.skip(bits@.len() as int) =~= seq![]);
            }
            start = bits.len();
        } else {
            start = start + 4;
        }
    }
    proof {
        assert(bits@.skip(start as int) =~= seq![]);
    }
    hex
}

proof fn lemma_hex_len(bits: Seq<bool>)
    ensures
        hex_of(bits).len() == (bits.len() + 3) / 4,
    decreases bits.len(),
{
    if bits.len() > 4 {
        lemma_hex_len(bits.skip(4));
    }
}

} // verus!
