//! Sound ids and their text form, which is what a button carries.

use ulid::Ulid;
use vstd::prelude::*;

verus! {

/// The character that writes a digit of base 32.
pub open spec fn digit32(d: nat) -> char {
    "0123456789ABCDEFGHJKMNPQRSTVWXYZ"@[d as int]
}

/// 32 to the power of `n`.
pub open spec fn pow32(n: nat) -> nat
    decreases n,
{
    if n == 0 {
        1
    } else {
        32 * pow32((n - 1) as nat)
    }
}

/// The text form of a sound id: its 26 digits of base 32, the most
/// significant first.
pub open spec fn ulid_text(id: u128) -> Seq<char> {
    Seq::new(26, |i: int| digit32((id as nat / pow32((25 - i) as nat)) % 32))
}

/// The character that writes a digit of base 32 in small letters.
pub open spec fn small32(d: nat) -> char {
    "0123456789abcdefghjkmnpqrstvwxyz"@[d as int]
}

/// `c` writes the digit `d` of base 32, in capital or in small letters.
pub open spec fn writes32(c: char, d: nat) -> bool {
    d < 32 && (c == digit32(d) || c == small32(d))
}

/// The digit of base 32 that a character writes, if it writes one.
pub open spec fn value32(c: char) -> Option<nat> {
    if exists|d: nat| writes32(c, d) {
        Some(choose|d: nat| writes32(c, d))
    } else {
        None
    }
}

/// The number that digits of base 32 write, the most significant first.
/// A character that writes no digit counts for nothing.
pub open spec fn number32(text: Seq<char>) -> nat
    decreases text.len(),
{
    if text.len() == 0 {
        0
    } else {
        number32(text.drop_last()) * 32 + match value32(text.last()) {
            Some(d) => d,
            None => 0,
        }
    }
}

/// The id that a text stands for, if any: the text is 26 digits of base
/// 32, in capital or small letters, and the id is the number they write,
/// cut to 128 bits.
pub open spec fn ulid_value(text: Seq<char>) -> Option<u128> {
    if text.len() == 26 && (forall|i: int| 0 <= i < 26 ==> value32(#[trigger] text[i]) is Some) {
        Some((number32(text) % 0x1_0000_0000_0000_0000_0000_0000_0000_0000nat) as u128)
    } else {
        None
    }
}

/// The number of a character of the alphabet of base 32: the digits, then
/// the capital letters without I, L, O and U.
pub open spec fn code32(d: nat) -> u32 {
    if d < 10 {
        (48 + d) as u32
    } else if d < 18 {
        (55 + d) as u32
    } else if d < 20 {
        (56 + d) as u32
    } else if d < 22 {
        (57 + d) as u32
    } else if d < 27 {
        (58 + d) as u32
    } else {
        (59 + d) as u32
    }
}

/// The characters of the digits of base 32, by their numbers.
pub proof fn lemma_alphabet(d: nat)
    requires
        d < 32,
    ensures
        digit32(d) as u32 == code32(d),
        small32(d) as u32 == if d < 10 {
            code32(d)
        } else {
            (code32(d) + 32) as u32
        },
{
    reveal_strlit("0123456789ABCDEFGHJKMNPQRSTVWXYZ");
    reveal_strlit("0123456789abcdefghjkmnpqrstvwxyz");
    let a = "0123456789ABCDEFGHJKMNPQRSTVWXYZ"@;
    let b = "0123456789abcdefghjkmnpqrstvwxyz"@;
    assert(b[0] == '0' && b[1] == '1' && b[2] == '2' && b[3] == '3' && b[4] == '4');
    assert(b[5] == '5' && b[6] == '6' && b[7] == '7' && b[8] == '8' && b[9] == '9');
    assert(b[10] == 'a' && b[11] == 'b' && b[12] == 'c' && b[13] == 'd' && b[14] == 'e');
    assert(b[15] == 'f' && b[16] == 'g' && b[17] == 'h' && b[18] == 'j' && b[19] == 'k');
    assert(b[20] == 'm' && b[21] == 'n' && b[22] == 'p' && b[23] == 'q' && b[24] == 'r');
    assert(b[25] == 's' && b[26] == 't' && b[27] == 'v' && b[28] == 'w' && b[29] == 'x');
    assert(b[30] == 'y' && b[31] == 'z');
    assert('a' as u32 == 97 && 'b' as u32 == 98 && 'c' as u32 == 99 && 'd' as u32 == 100);
    assert('e' as u32 == 101 && 'f' as u32 == 102 && 'g' as u32 == 103 && 'h' as u32 == 104);
    assert('j' as u32 == 106 && 'k' as u32 == 107 && 'm' as u32 == 109 && 'n' as u32 == 110);
    assert('p' as u32 == 112 && 'q' as u32 == 113 && 'r' as u32 == 114 && 's' as u32 == 115);
    assert('t' as u32 == 116 && 'v' as u32 == 118 && 'w' as u32 == 119 && 'x' as u32 == 120);
    assert('y' as u32 == 121 && 'z' as u32 == 122);
    assert(a[0] == '0' && a[1] == '1' && a[2] == '2' && a[3] == '3' && a[4] == '4');
    assert(a[5] == '5' && a[6] == '6' && a[7] == '7' && a[8] == '8' && a[9] == '9');
    assert(a[10] == 'A' && a[11] == 'B' && a[12] == 'C' && a[13] == 'D' && a[14] == 'E');
    assert(a[15] == 'F' && a[16] == 'G' && a[17] == 'H' && a[18] == 'J' && a[19] == 'K');
    assert(a[20] == 'M' && a[21] == 'N' && a[22] == 'P' && a[23] == 'Q' && a[24] == 'R');
    assert(a[25] == 'S' && a[26] == 'T' && a[27] == 'V' && a[28] == 'W' && a[29] == 'X');
    assert(a[30] == 'Y' && a[31] == 'Z');
    assert('0' as u32 == 48 && '1' as u32 == 49 && '2' as u32 == 50 && '3' as u32 == 51);
    assert('4' as u32 == 52 && '5' as u32 == 53 && '6' as u32 == 54 && '7' as u32 == 55);
    assert('8' as u32 == 56 && '9' as u32 == 57);
    assert('A' as u32 == 65 && 'B' as u32 == 66 && 'C' as u32 == 67 && 'D' as u32 == 68);
    assert('E' as u32 == 69 && 'F' as u32 == 70 && 'G' as u32 == 71 && 'H' as u32 == 72);
    assert('J' as u32 == 74 && 'K' as u32 == 75 && 'M' as u32 == 77 && 'N' as u32 == 78);
    assert('P' as u32 == 80 && 'Q' as u32 == 81 && 'R' as u32 == 82 && 'S' as u32 == 83);
    assert('T' as u32 == 84 && 'V' as u32 == 86 && 'W' as u32 == 87 && 'X' as u32 == 88);
    assert('Y' as u32 == 89 && 'Z' as u32 == 90);
    if d < 8 {
        assert(d == 0 || d == 1 || d == 2 || d == 3 || d == 4 || d == 5 || d == 6 || d == 7);
    } else if d < 16 {
        assert(d == 8 || d == 9 || d == 10 || d == 11 || d == 12 || d == 13 || d == 14 || d == 15);
    } else if d < 24 {
        assert(d == 16 || d == 17 || d == 18 || d == 19 || d == 20 || d == 21 || d == 22 || d
            == 23);
    } else {
        assert(d == 24 || d == 25 || d == 26 || d == 27 || d == 28 || d == 29 || d == 30 || d
            == 31);
    }
}

/// The character of a digit writes that digit and no other, in capital
/// and in small letters.
pub proof fn lemma_value32(d: nat)
    requires
        d < 32,
    ensures
        value32(digit32(d)) == Some(d),
        value32(small32(d)) == Some(d),
{
    lemma_alphabet(d);
    assert(writes32(digit32(d), d));
    assert(writes32(small32(d), d));
    assert forall|e: nat| writes32(digit32(d), e) || writes32(small32(d), e) implies e == d by {
        lemma_alphabet(e);
    }
}

/// The digits of its text form write an id.
#[verifier::rlimit(50)]
pub proof fn lemma_number32(id: u128, k: nat)
    requires
        k <= 26,
    ensures
        number32(ulid_text(id).take(k as int)) == id as nat / pow32((26 - k) as nat),
        forall|i: int| 0 <= i < 26 ==> value32(#[trigger] ulid_text(id)[i]) is Some,
    decreases k,
{
    let text = ulid_text(id);
    assert forall|i: int| 0 <= i < 26 implies value32(#[trigger] text[i]) is Some by {
        let m = pow32((25 - i) as nat);
        lemma_pow32_positive((25 - i) as nat);
        lemma_value32(((id as nat / m) % 32) as nat);
    }
    if k == 0 {
        assert(text.take(0) =~= Seq::<char>::empty());
        lemma_pow32_26();
        assert(id as nat / 0x4_0000_0000_0000_0000_0000_0000_0000_0000nat == 0);
    } else {
        let j = (k - 1) as nat;
        lemma_number32(id, j);
        let m = pow32((25 - j) as nat);
        lemma_pow32_positive((25 - j) as nat);
        let front = text.take(k as int);
        assert(front.drop_last() =~= text.take(j as int));
        assert(front.last() == text[j as int]);
        let q = id as nat / m;
        lemma_value32((q % 32) as nat);
        assert(pow32((26 - j) as nat) == 32 * m);
        assert(id as nat / (32 * m) == q / 32) by {
            vstd::arithmetic::div_mod::lemma_div_denominator(id as int, m as int, 32);
            assert(m * 32 == 32 * m) by (nonlinear_arith);
        }
        assert((q / 32) * 32 + q % 32 == q) by {
            vstd::arithmetic::div_mod::lemma_fundamental_div_mod(q as int, 32);
        }
    }
}

/// Every power of 32 is positive.
pub proof fn lemma_pow32_positive(n: nat)
    ensures
        pow32(n) > 0,
    decreases n,
{
    if n > 0 {
        lemma_pow32_positive((n - 1) as nat);
    }
}

/// 32 to the power of 26 is 2 to the power of 130, which is more than any
/// id.
pub proof fn lemma_pow32_26()
    ensures
        pow32(26) == 0x4_0000_0000_0000_0000_0000_0000_0000_0000nat,
{
    assert(pow32(0) == 1);
    assert(pow32(1) == 32);
    assert(pow32(2) == 0x400);
    assert(pow32(3) == 0x8000);
    assert(pow32(4) == 0x10_0000);
    assert(pow32(5) == 0x200_0000);
    assert(pow32(6) == 0x4000_0000);
    assert(pow32(7) == 0x8_0000_0000);
    assert(pow32(8) == 0x100_0000_0000);
    assert(pow32(9) == 0x2000_0000_0000);
    assert(pow32(10) == 0x4_0000_0000_0000);
    assert(pow32(11) == 0x80_0000_0000_0000);
    assert(pow32(12) == 0x1000_0000_0000_0000);
    assert(pow32(13) == 0x2_0000_0000_0000_0000);
    assert(pow32(14) == 0x40_0000_0000_0000_0000);
    assert(pow32(15) == 0x800_0000_0000_0000_0000);
    assert(pow32(16) == 0x1_0000_0000_0000_0000_0000);
    assert(pow32(17) == 0x20_0000_0000_0000_0000_0000);
    assert(pow32(18) == 0x400_0000_0000_0000_0000_0000);
    assert(pow32(19) == 0x8000_0000_0000_0000_0000_0000);
    assert(pow32(20) == 0x10_0000_0000_0000_0000_0000_0000);
    assert(pow32(21) == 0x200_0000_0000_0000_0000_0000_0000);
    assert(pow32(22) == 0x4000_0000_0000_0000_0000_0000_0000);
    assert(pow32(23) == 0x8_0000_0000_0000_0000_0000_0000_0000);
    assert(pow32(24) == 0x100_0000_0000_0000_0000_0000_0000_0000);
    assert(pow32(25) == 0x2000_0000_0000_0000_0000_0000_0000_0000);
    assert(pow32(26) == 0x4_0000_0000_0000_0000_0000_0000_0000_0000nat);
}

/// The text form of an id is read back as that id.
pub proof fn lemma_text_is_read_back(id: u128)
    ensures
        ulid_value(ulid_text(id)) == Some(id),
{
    let text = ulid_text(id);
    lemma_number32(id, 26);
    assert(text.len() == 26);
    assert(text.take(26) =~= text);
    assert(pow32(0) == 1);
    let one = pow32(0);
    assert(number32(text.take(26)) == id as nat / one);
    assert(id as nat / one == id as nat) by (nonlinear_arith)
        requires
            one == 1,
    ;
    assert(id as nat % 0x1_0000_0000_0000_0000_0000_0000_0000_0000nat == id as nat);
}

/// A text of another length than 26 stands for no id; so the text of the
/// menu that shows the name of a group does not.
pub proof fn lemma_menu_is_no_sound()
    ensures
        ulid_value("group"@).is_none(),
{
    reveal_strlit("group");
}

/// ulid's `Ulid::to_string`: the id written as 26 digits of base 32, the
/// most significant first, in the alphabet of digits and capital letters
/// without I, L, O and U.
#[verifier::external_body]
pub(crate) fn ulid_to_text(id: u128) -> (r: String)
    ensures
        r@ == ulid_text(id),
{
    Ulid(id).to_string()
}

/// ulid's `Ulid::from_string`: the id that the text writes, or nothing
/// where the text is not 26 characters that each write a digit of base
/// 32. The digits are taken in capital or in small letters, and of a
/// number beyond 128 bits the lowest 128 bits are kept.
#[verifier::external_body]
pub(crate) fn ulid_from_text(text: &str) -> (r: Option<u128>)
    ensures
        r == ulid_value(text@),
{
    match Ulid::from_string(text) {
        Ok(id) => Some(id.0),
        Err(_) => None,
    }
}

/// ulid's `Ulid::new`: an id made of the current time and random bits.
/// Nothing is known of it.
#[verifier::external_body]
pub(crate) fn ulid_new() -> u128 {
    Ulid::new().0
}

/// The text that the button of the sound `id` carries. A click on the
/// button is read as a request for that sound.
pub fn custom_id(id: u128) -> (r: String)
    ensures
        r@ == ulid_text(id),
        r@.len() == 26,
        ulid_value(r@) == Some(id),
{
    proof {
        lemma_text_is_read_back(id);
    }
    ulid_to_text(id)
}

/// The sound that a button with the text `custom_id` stands for.
pub fn clicked(custom_id: &str) -> (r: Option<u128>)
    ensures
        r == ulid_value(custom_id@),
{
    ulid_from_text(custom_id)
}

} // verus!
