//! The ids of devices.

use vstd::prelude::*;
use crate::device_id;

verus! {

/// The number that a character of the alphabet stands for.
pub open spec fn worth(c: char) -> int {
    if c >= 'A' {
        c as int - 65
    } else {
        c as int - 50 + 26
    }
}

/// The alphabet: the capital letters, then the digits from two to seven.
pub proof fn law_worth(c: char)
    ensures
        device_id::codepoint(c) is Some <==> 'A' <= c && c <= 'Z' || '2' <= c && c <= '7',
        device_id::codepoint(c) is Some ==> device_id::codepoint(c)->0 == worth(c),
        device_id::codepoint(c) is Some ==> device_id::symbol(worth(c)) == c,
        device_id::codepoint(c) is Some ==> 0 <= worth(c) < 32,
{
}

/// What a character adds to the sum that is checked: its number, which is doubled at every
/// other place, digit by digit in base 32.
pub open spec fn share(c: char, place: int) -> int {
    let x = if place % 2 == 0 {
        worth(c)
    } else {
        2 * worth(c)
    };
    if x < 32 {
        x
    } else {
        x - 31
    }
}

/// The check digit fills the sum of the characters before it up to a multiple of 32.
pub proof fn law_check_sum(s: Seq<char>, c: char)
    requires
        device_id::codepoint(c) is Some,
    ensures
        device_id::luhn_sum(Seq::empty()) == 0,
        device_id::luhn_sum(s.push(c)) == device_id::luhn_sum(s) + share(c, s.len() as int),
        (device_id::luhn_sum(s) + worth(device_id::luhn_digit(s))) % 32 == 0,
{
    assert(s.push(c).drop_last() =~= s);
    let q = (32 - device_id::luhn_sum(s) % 32) % 32;
    device_id::lemma_symbol(q);
    assert(worth(device_id::symbol(q)) == q);
}

/// The text of an id is made of eight groups of seven characters of the alphabet, with dashes
/// between them.
pub proof fn law_text_form(id: Seq<u8>)
    requires
        id.len() == 32,
    ensures
        device_id::text_of_id(id).len() == 63,
        forall|k: int|
            0 <= k < 63 ==> {
                let c = #[trigger] device_id::text_of_id(id)[k];
                if k % 8 == 7 {
                    c == '-'
                } else {
                    'A' <= c && c <= 'Z' || '2' <= c && c <= '7'
                }
            },
{
    device_id::lemma_text_symbols(id);
    let inner = device_id::luhnified(device_id::base32(id).take(52));
    assert forall|k: int| 0 <= k < 63 implies {
        let c = #[trigger] device_id::text_of_id(id)[k];
        if k % 8 == 7 {
            c == '-'
        } else {
            'A' <= c && c <= 'Z' || '2' <= c && c <= '7'
        }
    } by {
        if k % 8 != 7 {
            let i = k / 8 * 7 + k % 8;
            assert(0 <= i < 56);
            assert(device_id::text_of_id(id)[k] == inner[i]);
            assert(device_id::codepoint(inner[i]) is Some);
        }
    }
}

/// The short id of a device is the number that its first eight bytes make, most significant
/// byte first.
pub proof fn law_short_id(id: Seq<u8>)
    requires
        id.len() == 32,
    ensures
        device_id::short_id_of(id) == crate::laws::reading::number_in(id, 8),
{
    reveal_with_fuel(crate::laws::reading::number_in, 9);
}

} // verus!
