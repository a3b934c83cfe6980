//! Device ids: the digest of a certificate, and the text form that people use.

use vstd::prelude::*;
use crate::pem;
use crate::text;

verus! {

pub const DEVICE_ID_LEN: usize = 32;

/// Names a device.
#[derive(Debug, Clone, Copy, Eq, Hash, PartialOrd, Ord)]
pub struct DeviceId {
    pub id: [u8; 32],
}

impl vstd::std_specs::cmp::PartialEqSpecImpl for DeviceId {
    open spec fn obeys_eq_spec() -> bool {
        true
    }

    open spec fn eq_spec(&self, other: &DeviceId) -> bool {
        self.id@ == other.id@
    }
}

impl PartialEq for DeviceId {
    fn eq(&self, other: &DeviceId) -> (r: bool) {
        let mut i: usize = 0;
        while i < DEVICE_ID_LEN
            invariant
                i <= DEVICE_ID_LEN,
                forall|j: int| 0 <= j < i ==> self.id@[j] == other.id@[j],
            decreases DEVICE_ID_LEN - i,
        {
            if self.id[i] != other.id[i] {
                return false;
            }
            i += 1;
        }
        assert(self.id@ =~= other.id@);
        true
    }
}

/// Why a text or bytes do not name a device.
#[derive(Debug, Clone, Copy, PartialEq, Eq, Structural)]
pub enum DeviceIdError {
    /// Only ASCII characters are allowed.
    NotAscii,
    /// There are not as many characters as there should be.
    Length(usize),
    /// There are not as many bytes as there should be.
    ByteLength(usize),
    /// A character that is not in the alphabet.
    InvalidChar(char),
    /// A check digit that does not fit the characters before it.
    CheckDigit { position: usize, found: char, expected: char },
    /// The last character stands for more bits than there are.
    TrailingBits,
}

// ---------------------------------------------------------------------------
// Base 32

/// Bit `i` of the bytes, the most significant bit of each byte first; 0 behind the end.
pub open spec fn bit_of(s: Seq<u8>, i: int) -> u8 {
    if i / 8 < s.len() {
        (s[i / 8] >> ((7 - i % 8) as u8)) & 1u8
    } else {
        0
    }
}

/// The number that the five bits of group `k` make.
pub open spec fn quint(s: Seq<u8>, k: int) -> int {
    16 * bit_of(s, 5 * k) + 8 * bit_of(s, 5 * k + 1) + 4 * bit_of(s, 5 * k + 2) + 2 * bit_of(
        s,
        5 * k + 3,
    ) + bit_of(s, 5 * k + 4)
}

/// The character for a number below 32.
pub open spec fn symbol(q: int) -> char {
    if q < 26 {
        ('A' as u32 + q) as char
    } else {
        ('2' as u32 + (q - 26)) as char
    }
}

/// How many groups of five bits there are in `n` bytes.
pub open spec fn quints(n: nat) -> nat {
    ((8 * n + 4) / 5) as nat
}

/// The bytes in base 32, filled up to whole blocks of eight characters.
pub open spec fn base32(s: Seq<u8>) -> Seq<char> {
    Seq::new(
        ((s.len() + 4) / 5 * 8) as nat,
        |k: int|
            if k < quints(s.len()) {
                symbol(quint(s, k))
            } else {
                '='
            },
    )
}

/// The characters that the bytes of an ASCII text stand for.
pub open spec fn ascii_chars(s: Seq<u8>) -> Seq<char> {
    s.map_values(|b: u8| b as char)
}

/// Calls `data_encoding::BASE32.encode`: groups of five bits as the characters of
/// RFC 4648, and padding up to whole blocks.
#[verifier::external_body]
fn base32_encode(input: &[u8]) -> (r: String)
    ensures
        r@ == base32(input@),
{
    data_encoding::BASE32.encode(input)
}

/// Calls `data_encoding::BASE32.decode` on a text whose padding, if any, is at its
/// very end: it gives the bytes that are encoded as that text, and an error where
/// there are none.
#[verifier::external_body]
fn base32_decode(input: &[u8]) -> (r: Option<Vec<u8>>)
    requires
        forall|i: int| 0 <= i < input@.len() - 4 ==> input@[i] != 61,
    ensures
        match r {
            Some(v) => base32(v@) == ascii_chars(input@),
            None => forall|v: Seq<u8>| #[trigger] base32(v) != ascii_chars(input@),
        },
{
    data_encoding::BASE32.decode(input).ok()
}

/// The digest that `sha2::Sha256` computes of the bytes.
pub uninterp spec fn sha256_of(data: Seq<u8>) -> Seq<u8>;

/// Calls `sha2::Sha256::digest`. Its result, named by `sha256_of`, depends on the
/// data alone.
#[verifier::external_body]
pub(crate) fn sha256(data: &[u8]) -> (r: [u8; 32])
    ensures
        r@ == sha256_of(data@),
{
    <sha2::Sha256 as sha2::Digest>::digest(data).into()
}

// ---------------------------------------------------------------------------
// Check digits

/// The number of a character in the alphabet.
pub open spec fn codepoint(c: char) -> Option<nat> {
    if 'A' <= c && c <= 'Z' {
        Some((c as int - 'A' as int) as nat)
    } else if '2' <= c && c <= '7' {
        Some((c as int + 26 - '2' as int) as nat)
    } else {
        None
    }
}

/// The first character that is not in the alphabet.
pub open spec fn first_invalid(s: Seq<char>) -> Option<char>
    decreases s.len(),
{
    if s.len() == 0 {
        None
    } else if codepoint(s[0]) is None {
        Some(s[0])
    } else {
        first_invalid(s.skip(1))
    }
}

/// What a character adds to the sum: every second one counts twice, and the digits
/// of the result in base 32 are added up.
pub open spec fn addend(c: char, i: int) -> nat {
    let x = if i % 2 == 0 {
        codepoint(c)->0
    } else {
        2 * codepoint(c)->0
    };
    x / 32 + x % 32
}

pub open spec fn luhn_sum(s: Seq<char>) -> nat
    decreases s.len(),
{
    if s.len() == 0 {
        0
    } else {
        luhn_sum(s.drop_last()) + addend(s.last(), s.len() - 1)
    }
}

/// The check digit of characters of the alphabet: what fills their sum up to a
/// multiple of 32.
pub open spec fn luhn_digit(s: Seq<char>) -> char {
    symbol((32 - luhn_sum(s) % 32) % 32)
}

fn symbol_char(q: u32) -> (r: char)
    requires
        q < 32,
    ensures
        r == symbol(q as int),
{
    if q < 26 {
        (65 + q as u8) as char
    } else {
        (50 + (q as u8 - 26)) as char
    }
}

/// The number of a character in the alphabet.
pub fn codepoint32(b: char) -> (r: Result<u32, DeviceIdError>)
    ensures
        match codepoint(b) {
            Some(n) => r == Ok::<u32, DeviceIdError>(n as u32) && n < 32,
            None => r == Err::<u32, DeviceIdError>(DeviceIdError::InvalidChar(b)),
        },
{
    if 'A' <= b && b <= 'Z' {
        Ok(b as u32 - 'A' as u32)
    } else if '2' <= b && b <= '7' {
        Ok(b as u32 + 26 - '2' as u32)
    } else {
        Err(DeviceIdError::InvalidChar(b))
    }
}

/// What is valid so far and what follows decide together.
proof fn lemma_first_invalid(s: Seq<char>, i: int)
    requires
        0 <= i <= s.len(),
        forall|j: int| 0 <= j < i ==> codepoint(#[trigger] s[j]) is Some,
    ensures
        first_invalid(s) == first_invalid(s.skip(i)),
    decreases i,
{
    if i == 0 {
        assert(s.skip(0) =~= s);
    } else {
        assert(codepoint(s[0]) is Some);
        assert(s.skip(1).skip(i - 1) =~= s.skip(i));
        assert forall|j: int| 0 <= j < i - 1 implies codepoint(#[trigger] s.skip(1)[j]) is Some by {
            assert(codepoint(s[j + 1]) is Some);
        }
        lemma_first_invalid(s.skip(1), i - 1);
    }
}

/// The check digit of the characters, all of which should be in the alphabet.
///
/// This is not the actual Luhn algorithm, see
/// <https://forum.syncthing.net/t/v0-9-0-new-node-id-format/478/6>.
pub fn luhn32(s: &[char]) -> (r: Result<char, DeviceIdError>)
    requires
        s@.len() * 31 <= u32::MAX,
    ensures
        match first_invalid(s@) {
            Some(c) => r == Err::<char, DeviceIdError>(DeviceIdError::InvalidChar(c)),
            None => r == Ok::<char, DeviceIdError>(luhn_digit(s@)),
        },
{
    let mut factor: u32 = 1;
    let mut sum: u32 = 0;
    let n: u32 = 32;
    let mut i: usize = 0;
    while i < s.len()
        invariant
            i <= s@.len(),
            s@.len() * 31 <= u32::MAX,
            n == 32,
            factor == (if i % 2 == 0 {
                1u32
            } else {
                2u32
            }),
            sum == luhn_sum(s@.take(i as int)),
            sum <= i * 31,
            forall|j: int| 0 <= j < i ==> codepoint(#[trigger] s@[j]) is Some,
        decreases s@.len() - i,
    {
        let codepoint = match codepoint32(s[i]) {
            Ok(x) => x,
            Err(e) => {
                proof {
                    lemma_first_invalid(s@, i as int);
                    assert(s@.skip(i as int)[0] == s@[i as int]);
                }
                return Err(e);
            },
        };
        let mut addend: u32 = factor * codepoint;
        factor = if factor == 2 {
            1
        } else {
            2
        };
        addend = (addend / n) + (addend % n);
        proof {
            assert(s@.take(i + 1).drop_last() =~= s@.take(i as int));
        }
        sum += addend;
        i += 1;
    }
    proof {
        lemma_first_invalid(s@, s@.len() as int);
        assert(s@.take(s@.len() as int) =~= s@);
    }
    let remainder: u32 = sum % n;
    Ok(symbol_char((n - remainder) % n))
}

/// The characters in four groups, each with its check digit behind it.
pub open spec fn luhnified(s: Seq<char>) -> Seq<char> {
    Seq::new(
        56,
        |k: int|
            if k % 14 == 13 {
                luhn_digit(s.subrange(k / 14 * 13, k / 14 * 13 + 13))
            } else {
                s[k / 14 * 13 + k % 14]
            },
    )
}

/// The first group from `i` on that makes the text invalid, and why.
pub open spec fn group_error(t: Seq<char>, i: int) -> Option<DeviceIdError>
    decreases 4 - i,
{
    if i >= 4 {
        None
    } else {
        let p = t.subrange(14 * i, 14 * i + 13);
        match first_invalid(p) {
            Some(c) => Some(DeviceIdError::InvalidChar(c)),
            None => if t[14 * i + 13] != luhn_digit(p) {
                Some(
                    DeviceIdError::CheckDigit {
                        position: (14 * i + 13) as usize,
                        found: t[14 * i + 13],
                        expected: luhn_digit(p),
                    },
                )
            } else {
                group_error(t, i + 1)
            },
        }
    }
}

/// The characters without the check digits.
pub open spec fn unluhnified(t: Seq<char>) -> Seq<char> {
    Seq::new(52, |k: int| t[k / 13 * 14 + k % 13])
}

/// Puts its check digit behind each of the four groups.
pub fn luhnify(s: &Vec<char>) -> (r: Result<Vec<char>, DeviceIdError>)
    ensures
        if s@.len() != 52 {
            r == Err::<Vec<char>, DeviceIdError>(DeviceIdError::Length(s@.len() as usize))
        } else {
            match first_invalid(s@) {
                Some(c) => r == Err::<Vec<char>, DeviceIdError>(DeviceIdError::InvalidChar(c)),
                None => r matches Ok(v) && v@ == luhnified(s@),
            }
        },
{
    if s.len() != 52 {
        return Err(DeviceIdError::Length(s.len()));
    }
    let mut res: Vec<char> = Vec::new();
    let mut i: usize = 0;
    assert(s@.skip(0) =~= s@);
    while i < 4
        invariant
            i <= 4,
            s@.len() == 52,
            res@ == luhnified(s@).take(14 * i),
            first_invalid(s@) == first_invalid(s@.skip(13 * i)),
        decreases 4 - i,
    {
        let p = vstd::slice::slice_subrange(s.as_slice(), i * 13, (i + 1) * 13);
        let l = match luhn32(p) {
            Ok(l) => l,
            Err(e) => {
                proof {
                    lemma_first_invalid_prefix(s@.skip(13 * i), 13);
                    assert(s@.skip(13 * i).take(13) =~= p@);
                }
                return Err(e);
            },
        };
        proof {
            lemma_first_invalid_prefix(s@.skip(13 * i), 13);
            assert(s@.skip(13 * i).take(13) =~= p@);
            assert(s@.skip(13 * i).skip(13) =~= s@.skip(13 * (i + 1)));
        }
        res.extend_from_slice(p);
        res.push(l);
        proof {
            let want = luhnified(s@).take(14 * (i + 1));
            assert forall|k: int| 0 <= k < 14 * (i + 1) implies res@[k] == want[k] by {
                if k >= 14 * i {
                    assert(k / 14 == i);
                    assert(k % 14 == k - 14 * i);
                    if k == 14 * i + 13 {
                        assert(s@.subrange(k / 14 * 13, k / 14 * 13 + 13) =~= p@);
                    } else {
                        assert(res@[k] == p@[k - 14 * i]);
                    }
                } else {
                    assert(luhnified(s@).take(14 * i)[k] == luhnified(s@)[k]);
                }
            }
            assert(res@ =~= want);
        }
        i += 1;
    }
    proof {
        assert(luhnified(s@).take(56) =~= luhnified(s@));
        assert(s@.skip(52).len() == 0);
    }
    Ok(res)
}

/// The first invalid character is in the front part, or else in the rest.
proof fn lemma_first_invalid_prefix(s: Seq<char>, n: int)
    requires
        0 <= n <= s.len(),
    ensures
        first_invalid(s.take(n)) is Some ==> first_invalid(s) == first_invalid(s.take(n)),
        first_invalid(s.take(n)) is None ==> first_invalid(s) == first_invalid(s.skip(n)),
    decreases n,
{
    if n == 0 {
        assert(s.skip(0) =~= s);
    } else {
        assert(s.take(n).skip(1) =~= s.skip(1).take(n - 1));
        assert(s.skip(1).skip(n - 1) =~= s.skip(n));
        lemma_first_invalid_prefix(s.skip(1), n - 1);
    }
}

/// Takes the check digits away, each of which has to fit its group.
pub fn unluhnify(s: &Vec<char>) -> (r: Result<Vec<char>, DeviceIdError>)
    ensures
        if s@.len() != 56 {
            r == Err::<Vec<char>, DeviceIdError>(DeviceIdError::Length(s@.len() as usize))
        } else {
            match group_error(s@, 0) {
                Some(e) => r == Err::<Vec<char>, DeviceIdError>(e),
                None => r matches Ok(v) && v@ == unluhnified(s@) && first_invalid(v@) is None,
            }
        },
{
    if s.len() != 56 {
        return Err(DeviceIdError::Length(s.len()));
    }
    let mut res: Vec<char> = Vec::new();
    assert(first_invalid(res@) is None);
    let mut i: usize = 0;
    while i < 4
        invariant
            i <= 4,
            s@.len() == 56,
            res@ == unluhnified(s@).take(13 * i),
            first_invalid(res@) is None,
            group_error(s@, 0) == group_error(s@, i as int),
        decreases 4 - i,
    {
        let p = vstd::slice::slice_subrange(s.as_slice(), i * 14, (i + 1) * 14 - 1);
        assert(p@ =~= s@.subrange(14 * i, 14 * i + 13));
        let ghost before = res@;
        res.extend_from_slice(p);
        let l = luhn32(p)?;
        let check_pos: usize = (i + 1) * 14 - 1;
        if s[check_pos] != l {
            return Err(
                DeviceIdError::CheckDigit { position: check_pos, found: s[check_pos], expected: l },
            );
        }
        proof {
            assert(res@ =~= before + p@);
            lemma_first_invalid_prefix(res@, before.len() as int);
            assert(res@.take(before.len() as int) =~= before);
            assert(res@.skip(before.len() as int) =~= p@);
            let want = unluhnified(s@).take(13 * (i + 1));
            assert forall|k: int| 0 <= k < 13 * (i + 1) implies res@[k] == want[k] by {
                if k >= 13 * i {
                    assert(k / 13 == i);
                    assert(k % 13 == k - 13 * i);
                } else {
                    assert(unluhnified(s@).take(13 * i)[k] == unluhnified(s@)[k]);
                }
            }
            assert(res@ =~= want);
        }
        i += 1;
    }
    assert(unluhnified(s@).take(52) =~= unluhnified(s@));
    Ok(res)
}

/// The characters in groups of seven, with dashes between them.
pub open spec fn chunkified(s: Seq<char>) -> Seq<char> {
    Seq::new(
        (s.len() / 7 * 8 - 1) as nat,
        |k: int|
            if k % 8 == 7 {
                '-'
            } else {
                s[k / 8 * 7 + k % 8]
            },
    )
}

pub fn chunkify(s: &Vec<char>) -> (r: Vec<char>)
    requires
        s@.len() >= 7,
    ensures
        r@ == chunkified(s@),
{
    let n: usize = s.len();
    let chunks: usize = n / 7;
    let mut res: Vec<char> = Vec::new();
    let mut i: usize = 0;
    while i < chunks
        invariant
            i <= chunks,
            n == s@.len(),
            chunks == n / 7,
            i == 0 ==> res@.len() == 0,
            i > 0 ==> res@ == chunkified(s@).take(8 * i - 1),
        decreases chunks - i,
    {
        let ghost before = res@;
        if i > 0 {
            res.push('-');
        }
        let chunk = vstd::slice::slice_subrange(s.as_slice(), i * 7, (i + 1) * 7);
        res.extend_from_slice(chunk);
        proof {
            let all = chunkified(s@);
            assert(8 * (i + 1) - 1 <= all.len());
            let want = all.take(8 * (i + 1) - 1);
            assert forall|k: int| 0 <= k < 8 * (i + 1) - 1 implies res@[k] == want[k] by {
                if k >= 8 * i {
                    assert(k / 8 == i);
                    assert(k % 8 == k - 8 * i);
                    assert(res@[k] == chunk@[k - 8 * i]);
                } else if k == 8 * i - 1 {
                    assert(k % 8 == 7);
                } else {
                    assert(before[k] == all.take(8 * i - 1)[k]);
                }
            }
            assert(res@ =~= want);
        }
        i += 1;
    }
    assert(chunkified(s@).take(8 * chunks - 1) =~= chunkified(s@));
    res
}

// ---------------------------------------------------------------------------
// The text form

/// A lower case letter as upper case.
pub open spec fn uppercase(c: char) -> char {
    if 'a' <= c && c <= 'z' {
        (c as u32 - 32) as char
    } else {
        c
    }
}

/// Digits that are not in the alphabet are taken for the letters they look like.
pub open spec fn without_typo(c: char) -> char {
    if c == '0' {
        'O'
    } else if c == '1' {
        'I'
    } else if c == '8' {
        'B'
    } else {
        c
    }
}

/// The characters that count: upper case, without dashes, spaces and typos.
pub open spec fn cleaned(s: Seq<char>) -> Seq<char>
    decreases s.len(),
{
    if s.len() == 0 {
        Seq::empty()
    } else {
        let before = cleaned(s.drop_last());
        if s.last() == '-' || s.last() == ' ' {
            before
        } else {
            before.push(without_typo(uppercase(s.last())))
        }
    }
}

/// The characters that are neither dashes nor spaces.
pub open spec fn without_gaps(s: Seq<char>) -> Seq<char>
    decreases s.len(),
{
    if s.len() == 0 {
        Seq::empty()
    } else if s.last() == '-' || s.last() == ' ' {
        without_gaps(s.drop_last())
    } else {
        without_gaps(s.drop_last()).push(s.last())
    }
}

pub open spec fn all_ascii(s: Seq<char>) -> bool {
    forall|i: int| 0 <= i < s.len() ==> (#[trigger] s[i] as u32) < 128
}

/// The bytes that are written as `s` in base 32 without padding.
pub open spec fn unpadded(s: Seq<char>) -> Option<Seq<u8>> {
    let padded = s + seq!['=', '=', '=', '='];
    if exists|v: Seq<u8>| base32(v) == padded {
        Some(choose|v: Seq<u8>| base32(v) == padded)
    } else {
        None
    }
}

/// The id that a text stands for.
pub open spec fn id_of_text(s: Seq<char>) -> Result<Seq<u8>, DeviceIdError> {
    if !all_ascii(s) {
        Err(DeviceIdError::NotAscii)
    } else if cleaned(s).len() != 56 {
        Err(DeviceIdError::Length(cleaned(s).len() as usize))
    } else {
        match group_error(cleaned(s), 0) {
            Some(e) => Err(e),
            None => match unpadded(unluhnified(cleaned(s))) {
                Some(id) => Ok(id),
                None => Err(DeviceIdError::TrailingBits),
            },
        }
    }
}

/// The id of the device with the certificates in a PEM file: the digest of the first
/// one; none where there is none, or the file cannot be read.
pub open spec fn device_of_pem(pem: Seq<u8>) -> Option<Seq<u8>> {
    match pem::pem_certs(pem) {
        Some(certs) => if certs.len() > 0 {
            Some(sha256_of(certs[0]))
        } else {
            None
        },
        None => None,
    }
}

/// The text that stands for an id.
pub open spec fn text_of_id(id: Seq<u8>) -> Seq<char> {
    chunkified(luhnified(base32(id).take(52)))
}

/// The text that stands for an id, with the name of the type.
pub open spec fn debug_text_of_id(id: Seq<u8>) -> Seq<char> {
    "DeviceId \""@ + text_of_id(id) + "\""@
}

/// How an error is reported, where `value` is the text that was refused.
pub open spec fn error_text(error: DeviceIdError, value: Seq<char>) -> Seq<char> {
    match error {
        DeviceIdError::NotAscii =>
            "Invalid string provided, only ASCII characters allowed"@,
        DeviceIdError::Length(n) => cleaned(value) + ": unsupported string length "@
            + text::decimal(n as nat),
        DeviceIdError::ByteLength(n) => "Expected a Vec<u8> of len 32, and got instead: "@
            + text::decimal(n as nat),
        DeviceIdError::InvalidChar(c) => "Invalid char "@ + seq![c] + " in alphabet ['A', 'B', 'C', 'D', 'E', 'F', 'G', 'H', 'I', 'J', 'K', 'L', 'M', 'N', 'O', 'P', 'Q', 'R', 'S', 'T', 'U', 'V', 'W', 'X', 'Y', 'Z', '2', '3', '4', '5', '6', '7']"@,
        DeviceIdError::CheckDigit { position, found, expected } =>
            "Incorrect check digit at position "@ + text::decimal(position as nat) + ". Was "@
            + seq![found] + ", expected "@ + seq![expected] + "."@,
        DeviceIdError::TrailingBits => "non-zero trailing bits at 51"@,
    }
}

/// What `u64` the first eight bytes make, most significant byte first.
pub open spec fn short_id_of(id: Seq<u8>) -> nat {
    (id[0] * 0x100_0000_0000_0000 + id[1] * 0x1_0000_0000_0000 + id[2] * 0x100_0000_0000 + id[3]
        * 0x1_0000_0000 + id[4] * 0x100_0000 + id[5] * 0x1_0000 + id[6] * 0x100 + id[7]) as nat
}

proof fn lemma_bits(s: Seq<u8>, i: int)
    ensures
        bit_of(s, i) <= 1,
{
    if i / 8 < s.len() {
        let b = s[i / 8];
        let n = (7 - i % 8) as u8;
        assert((b >> n) & 1u8 <= 1u8) by (bit_vector);
    }
}

proof fn lemma_quint(s: Seq<u8>, k: int)
    ensures
        0 <= quint(s, k) < 32,
{
    lemma_bits(s, 5 * k);
    lemma_bits(s, 5 * k + 1);
    lemma_bits(s, 5 * k + 2);
    lemma_bits(s, 5 * k + 3);
    lemma_bits(s, 5 * k + 4);
}

/// A symbol is in the alphabet and is the number's own.
pub proof fn lemma_symbol(q: int)
    requires
        0 <= q < 32,
    ensures
        codepoint(symbol(q)) == Some(q as nat),
        symbol(q) != '=',
        symbol(q) != '-',
        symbol(q) != ' ',
        uppercase(symbol(q)) == symbol(q),
        without_typo(symbol(q)) == symbol(q),
        (symbol(q) as u32) < 128,
{
}

/// The symbols are no more than the text has room for.
proof fn lemma_quints_fit(n: nat)
    ensures
        quints(n) <= (n + 4) / 5 * 8,
{
    let m = (n + 4) / 5;
    assert(n <= 5 * m);
    assert(8 * n + 4 <= 5 * (8 * m) + 4);
}

/// Texts of one length with as much padding are of as many bytes.
proof fn lemma_base32_len(a: Seq<u8>, b: Seq<u8>)
    requires
        base32(a) == base32(b),
    ensures
        quints(a.len()) == quints(b.len()),
        a.len() == b.len(),
{
    lemma_quints_fit(a.len());
    lemma_quints_fit(b.len());
    assert(base32(a).len() == base32(b).len());
    if quints(a.len()) < quints(b.len()) {
        let k = quints(a.len()) as int;
        lemma_quint(b, k);
        lemma_symbol(quint(b, k));
        assert(k < base32(b).len());
        assert(k < base32(a).len());
        assert(base32(a)[k] == '=');
        assert(base32(b)[k] == symbol(quint(b, k)));
    }
    if quints(b.len()) < quints(a.len()) {
        let k = quints(b.len()) as int;
        lemma_quint(a, k);
        lemma_symbol(quint(a, k));
        assert(k < base32(a).len());
        assert(k < base32(b).len());
        assert(base32(b)[k] == '=');
        assert(base32(a)[k] == symbol(quint(a, k)));
    }
}

proof fn lemma_bit_equal(a: Seq<u8>, b: Seq<u8>, i: int)
    requires
        base32(a) == base32(b),
        0 <= i < 8 * a.len(),
    ensures
        bit_of(a, i) == bit_of(b, i),
{
    lemma_base32_len(a, b);
    let k = i / 5;
    assert(k < quints(a.len()));
    assert(base32(a)[k] == symbol(quint(a, k)));
    assert(base32(b)[k] == symbol(quint(b, k)));
    lemma_quint(a, k);
    lemma_quint(b, k);
    lemma_symbol(quint(a, k));
    lemma_symbol(quint(b, k));
    assert(quint(a, k) == quint(b, k));
    assert forall|m: int| 0 <= m < 5 implies #[trigger] bit_of(a, 5 * k + m) <= 1 && bit_of(
        b,
        5 * k + m,
    ) <= 1 by {
        lemma_bits(a, 5 * k + m);
        lemma_bits(b, 5 * k + m);
    }
    assert(bit_of(a, 5 * k + 0) <= 1 && bit_of(a, 5 * k + 1) <= 1 && bit_of(a, 5 * k + 2) <= 1
        && bit_of(a, 5 * k + 3) <= 1 && bit_of(a, 5 * k + 4) <= 1);
    let m = i % 5;
    assert(i == 5 * k + m);
    if m == 0 {
        assert(i == 5 * k);
    } else if m == 1 {
    } else if m == 2 {
    } else if m == 3 {
    } else {
        assert(m == 4);
    }
}

proof fn lemma_byte_equal(b: u8, c: u8)
    requires
        forall|n: u8| n <= 7 ==> #[trigger] ((b >> n) & 1u8) == (c >> n) & 1u8,
    ensures
        b == c,
{
    assert((b >> 0u8) & 1u8 == (c >> 0u8) & 1u8);
    assert((b >> 1u8) & 1u8 == (c >> 1u8) & 1u8);
    assert((b >> 2u8) & 1u8 == (c >> 2u8) & 1u8);
    assert((b >> 3u8) & 1u8 == (c >> 3u8) & 1u8);
    assert((b >> 4u8) & 1u8 == (c >> 4u8) & 1u8);
    assert((b >> 5u8) & 1u8 == (c >> 5u8) & 1u8);
    assert((b >> 6u8) & 1u8 == (c >> 6u8) & 1u8);
    assert((b >> 7u8) & 1u8 == (c >> 7u8) & 1u8);
    assert(b == c) by (bit_vector)
        requires
            (b >> 0u8) & 1u8 == (c >> 0u8) & 1u8,
            (b >> 1u8) & 1u8 == (c >> 1u8) & 1u8,
            (b >> 2u8) & 1u8 == (c >> 2u8) & 1u8,
            (b >> 3u8) & 1u8 == (c >> 3u8) & 1u8,
            (b >> 4u8) & 1u8 == (c >> 4u8) & 1u8,
            (b >> 5u8) & 1u8 == (c >> 5u8) & 1u8,
            (b >> 6u8) & 1u8 == (c >> 6u8) & 1u8,
            (b >> 7u8) & 1u8 == (c >> 7u8) & 1u8,
    ;
}

/// Different bytes have different texts in base 32.
pub proof fn lemma_base32_injective(a: Seq<u8>, b: Seq<u8>)
    requires
        base32(a) == base32(b),
    ensures
        a == b,
{
    lemma_base32_len(a, b);
    assert forall|j: int| 0 <= j < a.len() implies a[j] == b[j] by {
        assert forall|n: u8| n <= 7 implies #[trigger] ((a[j] >> n) & 1u8) == (b[j] >> n) & 1u8 by {
            let i = 8 * j + (7 - n);
            assert(i / 8 == j);
            assert((7 - i % 8) as u8 == n);
            lemma_bit_equal(a, b, i);
        }
        lemma_byte_equal(a[j], b[j]);
    }
    assert(a =~= b);
}

/// Where the text has 52 characters before the padding, there are 32 bytes.
proof fn lemma_unpadded_len(s: Seq<char>, v: Seq<u8>)
    requires
        s.len() == 52,
        forall|i: int| 0 <= i < 52 ==> #[trigger] s[i] != '=',
        base32(v) == s + seq!['=', '=', '=', '='],
    ensures
        v.len() == 32,
        unpadded(s) == Some(v),
{
    let padded = s + seq!['=', '=', '=', '='];
    let q = quints(v.len()) as int;
    assert(base32(v).len() == padded.len());
    if q < 52 {
        assert(q < base32(v).len());
        assert(base32(v)[q] == '=');
        assert(padded[q] == s[q]);
    } else if q > 52 {
        lemma_quint(v, 52);
        lemma_symbol(quint(v, 52));
        assert(base32(v)[52] == symbol(quint(v, 52)));
        assert(padded[52] == '=');
    }
    let w = choose|w: Seq<u8>| base32(w) == padded;
    lemma_base32_injective(v, w);
}

fn clean(value: &Vec<char>) -> (r: Vec<char>)
    requires
        all_ascii(value@),
    ensures
        r@ == cleaned(value@),
{
    let mut out: Vec<char> = Vec::new();
    let mut i: usize = 0;
    while i < value.len()
        invariant
            i <= value@.len(),
            all_ascii(value@),
            out@ == cleaned(value@.take(i as int)),
        decreases value@.len() - i,
    {
        let c: char = value[i];
        proof {
            assert(value@.take(i + 1).drop_last() =~= value@.take(i as int));
            assert(value@.take(i + 1).last() == c);
        }
        if c != '-' && c != ' ' {
            let upper: char = if 'a' <= c && c <= 'z' {
                (c as u8 - 32) as char
            } else {
                c
            };
            let fixed: char = if upper == '0' {
                'O'
            } else if upper == '1' {
                'I'
            } else if upper == '8' {
                'B'
            } else {
                upper
            };
            out.push(fixed);
        }
        i += 1;
    }
    assert(value@.take(value@.len() as int) =~= value@);
    out
}

/// Characters of the alphabet are ASCII and not padding.
proof fn lemma_valid_chars(s: Seq<char>, i: int)
    requires
        first_invalid(s) is None,
        0 <= i < s.len(),
    ensures
        codepoint(s[i]) is Some,
        s[i] != '=',
        (s[i] as u32) < 128,
    decreases s.len(),
{
    if i > 0 {
        lemma_valid_chars(s.skip(1), i - 1);
    }
}

fn decode_unpadded(s: &Vec<char>) -> (r: Option<[u8; 32]>)
    requires
        s@.len() == 52,
        first_invalid(s@) is None,
    ensures
        match r {
            Some(id) => unpadded(s@) == Some(id@),
            None => unpadded(s@) is None,
        },
{
    let mut input: Vec<u8> = Vec::new();
    let mut i: usize = 0;
    while i < 52
        invariant
            i <= 52,
            s@.len() == 52,
            first_invalid(s@) is None,
            input@.len() == i,
            forall|j: int| 0 <= j < i ==> #[trigger] input@[j] as char == s@[j] && input@[j] != 61,
        decreases 52 - i,
    {
        proof {
            lemma_valid_chars(s@, i as int);
        }
        input.push(s[i] as u8);
        i += 1;
    }
    input.push(61);
    input.push(61);
    input.push(61);
    input.push(61);
    let ghost padded = s@ + seq!['=', '=', '=', '='];
    assert(ascii_chars(input@) =~= padded);
    assert forall|j: int| 0 <= j < 52 implies #[trigger] s@[j] != '=' by {
        lemma_valid_chars(s@, j);
    }
    match base32_decode(input.as_slice()) {
        Some(v) => {
            proof {
                lemma_unpadded_len(s@, v@);
            }
            Some(array_of(v.as_slice()))
        },
        None => None,
    }
}

fn array_of(v: &[u8]) -> (r: [u8; 32])
    requires
        v@.len() == 32,
    ensures
        r@ == v@,
{
    let mut id: [u8; 32] = [0; 32];
    let mut i: usize = 0;
    while i < 32
        invariant
            i <= 32,
            v@.len() == 32,
            forall|j: int| 0 <= j < i ==> id@[j] == v@[j],
        decreases 32 - i,
    {
        id[i] = v[i];
        i += 1;
    }
    assert(id@ =~= v@);
    id
}

fn check_ascii(value: &Vec<char>) -> (r: bool)
    ensures
        r == all_ascii(value@),
{
    let mut i: usize = 0;
    while i < value.len()
        invariant
            i <= value@.len(),
            forall|j: int| 0 <= j < i ==> (#[trigger] value@[j] as u32) < 128,
        decreases value@.len() - i,
    {
        if value[i] as u32 >= 128 {
            return false;
        }
        i += 1;
    }
    true
}

impl DeviceId {
    /// The id of the device with this certificate.
    pub fn from_certificate(cert: &[u8]) -> (r: DeviceId)
        ensures
            r.id@ == sha256_of(cert@),
    {
        DeviceId { id: sha256(cert) }
    }

    /// The id of the device with these certificates: that of the first one.
    pub fn from_certificates(certs: &Vec<Vec<u8>>) -> (r: Option<DeviceId>)
        ensures
            match r {
                Some(d) => certs@.len() > 0 && d.id@ == sha256_of(certs@[0]@),
                None => certs@.len() == 0,
            },
    {
        if certs.len() == 0 {
            None
        } else {
            Some(DeviceId::from_certificate(certs[0].as_slice()))
        }
    }

    /// The id of the device with the certificates in a PEM file.
    pub fn from_pem(pem: &[u8]) -> (r: Option<DeviceId>)
        ensures
            match device_of_pem(pem@) {
                Some(id) => r matches Some(d) && d.id@ == id,
                None => r is None,
            },
    {
        match pem::certs_of_pem(pem) {
            Some(certs) => {
                proof {
                    if certs@.len() > 0 {
                        assert(crate::views(certs@)[0] == certs@[0]@);
                    }
                }
                DeviceId::from_certificates(&certs)
            },
            None => None,
        }
    }

    /// The id that a text stands for.
    pub fn try_from_text(value: &str) -> (r: Result<DeviceId, DeviceIdError>)
        ensures
            match id_of_text(value@) {
                Ok(id) => r matches Ok(d) && d.id@ == id,
                Err(e) => r == Err::<DeviceId, DeviceIdError>(e),
            },
    {
        let chars = text::chars_of(value);
        if !check_ascii(&chars) {
            return Err(DeviceIdError::NotAscii);
        }
        let value = clean(&chars);
        let value = unluhnify(&value)?;
        match decode_unpadded(&value) {
            Some(id) => Ok(DeviceId { id }),
            None => Err(DeviceIdError::TrailingBits),
        }
    }

    /// The id that is made of these bytes.
    pub fn try_from_bytes(input: &[u8]) -> (r: Result<DeviceId, DeviceIdError>)
        ensures
            if input@.len() == DEVICE_ID_LEN {
                r matches Ok(d) && d.id@ == input@
            } else {
                r == Err::<DeviceId, DeviceIdError>(
                    DeviceIdError::ByteLength(input@.len() as usize),
                )
            },
    {
        if input.len() != DEVICE_ID_LEN {
            return Err(DeviceIdError::ByteLength(input.len()));
        }
        Ok(DeviceId { id: array_of(input) })
    }

    /// The bytes of the id.
    pub fn to_bytes(&self) -> (r: Vec<u8>)
        ensures
            r@ == self.id@,
    {
        let r = vstd::slice::slice_to_vec(self.id.as_slice());
        assert(r@ =~= self.id@);
        r
    }

    /// The first eight bytes as a number.
    pub fn short_id(&self) -> (r: u64)
        ensures
            r == short_id_of(self.id@),
    {
        self.id[0] as u64 * 0x100_0000_0000_0000 + self.id[1] as u64 * 0x1_0000_0000_0000
            + self.id[2] as u64 * 0x100_0000_0000 + self.id[3] as u64 * 0x1_0000_0000
            + self.id[4] as u64 * 0x100_0000 + self.id[5] as u64 * 0x1_0000 + self.id[6] as u64
            * 0x100 + self.id[7] as u64
    }

    /// The text that stands for the id.
    pub fn to_string(&self) -> (r: String)
        ensures
            r@ == text_of_id(self.id@),
    {
        let encoded = text::chars_of(base32_encode(self.id.as_slice()).as_str());
        proof {
            assert(encoded@.len() == 56);
            lemma_base32_valid(self.id@);
        }
        let mut symbols: Vec<char> = encoded;
        symbols.truncate(52);
        match luhnify(&symbols) {
            Ok(res) => text::string_of(chunkify(&res)),
            Err(_) => String::new(),
        }
    }

    /// The text that stands for the id, with the name of the type.
    pub fn to_debug_string(&self) -> (r: String)
        ensures
            r@ == debug_text_of_id(self.id@),
    {
        let mut out = "DeviceId \"".to_owned();
        out.append(self.to_string().as_str());
        out.append("\"");
        out
    }
}

fn char_text(c: char) -> (r: String)
    ensures
        r@ == seq![c],
{
    let mut chars: Vec<char> = Vec::new();
    chars.push(c);
    assert(chars@ =~= seq![c]);
    text::string_of(chars)
}

impl DeviceIdError {
    /// How the error is reported, where `value` is the text that was refused.
    pub fn to_text(&self, value: &str) -> (r: String)
        requires
            self is Length ==> all_ascii(value@),
        ensures
            r@ == error_text(*self, value@),
    {
        match self {
            DeviceIdError::NotAscii =>
                "Invalid string provided, only ASCII characters allowed".to_owned(),
            DeviceIdError::Length(n) => {
                let chars = text::chars_of(value);
                let mut out = text::string_of(clean(&chars));
                out.append(": unsupported string length ");
                out.append(text::decimal_text(*n as u64).as_str());
                out
            },
            DeviceIdError::ByteLength(n) => {
                let mut out = "Expected a Vec<u8> of len 32, and got instead: ".to_owned();
                out.append(text::decimal_text(*n as u64).as_str());
                out
            },
            DeviceIdError::InvalidChar(c) => {
                let mut out = "Invalid char ".to_owned();
                out.append(char_text(*c).as_str());
                out.append(
                    " in alphabet ['A', 'B', 'C', 'D', 'E', 'F', 'G', 'H', 'I', 'J', 'K', 'L', 'M', 'N', 'O', 'P', 'Q', 'R', 'S', 'T', 'U', 'V', 'W', 'X', 'Y', 'Z', '2', '3', '4', '5', '6', '7']",
                );
                out
            },
            DeviceIdError::CheckDigit { position, found, expected } => {
                let mut out = "Incorrect check digit at position ".to_owned();
                out.append(text::decimal_text(*position as u64).as_str());
                out.append(". Was ");
                out.append(char_text(*found).as_str());
                out.append(", expected ");
                out.append(char_text(*expected).as_str());
                out.append(".");
                out
            },
            DeviceIdError::TrailingBits => "non-zero trailing bits at 51".to_owned(),
        }
    }
}

/// The text of an id, before the padding, is made of characters of the alphabet.
proof fn lemma_base32_valid(id: Seq<u8>)
    requires
        id.len() == 32,
    ensures
        base32(id).len() == 56,
        first_invalid(base32(id).take(52)) is None,
        base32(id) == base32(id).take(52) + seq!['=', '=', '=', '='],
        forall|k: int|
            0 <= k < 52 ==> #[trigger] base32(id).take(52)[k] == symbol(quint(id, k)),
{
    let s = base32(id).take(52);
    assert forall|k: int| 0 <= k < 52 implies #[trigger] s[k] == symbol(quint(id, k)) by {
        assert(base32(id)[k] == symbol(quint(id, k)));
    }
    assert forall|k: int| 0 <= k < 52 implies codepoint(#[trigger] s[k]) is Some by {
        lemma_quint(id, k);
        lemma_symbol(quint(id, k));
    }
    lemma_first_invalid(s, 52);
    assert(s.skip(52).len() == 0);
    assert(base32(id) =~= s + seq!['=', '=', '=', '=']);
}

/// Dashes are all that cleaning takes out of the text form.
proof fn lemma_cleaned(t: Seq<char>, k: int)
    requires
        t.len() == 56,
        forall|i: int|
            0 <= i < 56 ==> uppercase(#[trigger] t[i]) == t[i] && without_typo(t[i]) == t[i] && t[i]
                != '-' && t[i] != ' ',
        0 <= k <= 63,
    ensures
        cleaned(chunkified(t).take(k)) == t.take(k - k / 8),
        without_gaps(chunkified(t).take(k)) == t.take(k - k / 8),
    decreases k,
{
    let s = chunkified(t).take(k);
    if k == 0 {
        assert(t.take(0) =~= Seq::empty());
    } else {
        lemma_cleaned(t, k - 1);
        assert(s.drop_last() =~= chunkified(t).take(k - 1));
        assert(s.last() == chunkified(t)[k - 1]);
        if (k - 1) % 8 == 7 {
            assert(k / 8 == (k - 1) / 8 + 1);
        } else {
            let i = (k - 1) / 8 * 7 + (k - 1) % 8;
            assert(k / 8 == (k - 1) / 8);
            assert(i == k - 1 - (k - 1) / 8);
            assert(s.last() == t[i]);
            assert(t.take(i + 1) =~= t.take(i).push(t[i]));
        }
    }
}

/// Every group of a text with its check digits is valid.
proof fn lemma_groups_valid(s: Seq<char>, i: int)
    requires
        s.len() == 52,
        first_invalid(s) is None,
        0 <= i <= 4,
    ensures
        group_error(luhnified(s), i) is None,
    decreases 4 - i,
{
    if i < 4 {
        let t = luhnified(s);
        let p = t.subrange(14 * i, 14 * i + 13);
        let q = s.subrange(13 * i, 13 * i + 13);
        assert forall|j: int| 0 <= j < 13 implies p[j] == q[j] by {
            let k = 14 * i + j;
            assert(k / 14 == i);
            assert(k % 14 == j);
            assert(p[j] == t[k]);
        }
        assert(p =~= q);
        assert forall|j: int| 0 <= j < 13 implies codepoint(#[trigger] q[j]) is Some by {
            lemma_valid_chars(s, 13 * i + j);
        }
        lemma_first_invalid(q, 13);
        assert(q.skip(13).len() == 0);
        let k = 14 * i + 13;
        assert(k / 14 == i);
        assert(k % 14 == 13);
        assert(t[k] == luhn_digit(q));
        lemma_groups_valid(s, i + 1);
    }
}

/// What a text for an id holds but for its dashes are characters of the alphabet.
pub proof fn lemma_text_symbols(id: Seq<u8>)
    requires
        id.len() == DEVICE_ID_LEN,
    ensures
        cleaned(text_of_id(id)) == luhnified(base32(id).take(52)),
        without_gaps(text_of_id(id)) == luhnified(base32(id).take(52)),
        forall|k: int|
            0 <= k < 56 ==> codepoint(#[trigger] luhnified(base32(id).take(52))[k]) is Some,
        all_ascii(text_of_id(id)),
{
    let s = base32(id).take(52);
    let t = luhnified(s);
    lemma_base32_valid(id);
    assert forall|k: int| 0 <= k < 56 implies uppercase(#[trigger] t[k]) == t[k] && without_typo(
        t[k],
    ) == t[k] && t[k] != '-' && t[k] != ' ' && (t[k] as u32) < 128 && codepoint(
        t[k],
    ) is Some by {
        if k % 14 == 13 {
            let sum = luhn_sum(s.subrange(k / 14 * 13, k / 14 * 13 + 13));
            lemma_symbol((32 - sum % 32) % 32);
        } else {
            let j = k / 14 * 13 + k % 14;
            assert(0 <= j < 52);
            lemma_quint(id, j);
            lemma_symbol(quint(id, j));
            assert(s[j] == symbol(quint(id, j)));
        }
    }
    let text = text_of_id(id);
    assert(text.len() == 63);
    assert forall|k: int| 0 <= k < 63 implies (#[trigger] text[k] as u32) < 128 by {
        if k % 8 != 7 {
            let j = k / 8 * 7 + k % 8;
            assert(0 <= j < 56);
            assert(text[k] == t[j]);
        }
    }
    lemma_cleaned(t, 63);
    assert(text.take(63) =~= text);
    assert(t.take(56) =~= t);
}

/// The text form of an id stands for that id.
pub proof fn law_text_round_trip(id: Seq<u8>)
    requires
        id.len() == DEVICE_ID_LEN,
    ensures
        id_of_text(text_of_id(id)) == Ok::<Seq<u8>, DeviceIdError>(id),
{
    let s = base32(id).take(52);
    lemma_base32_valid(id);
    lemma_text_symbols(id);
    lemma_groups_valid(s, 0);
    lemma_unluhnified(s);
    assert forall|k: int| 0 <= k < 52 implies #[trigger] s[k] != '=' by {
        lemma_valid_chars(s, k);
    }
    lemma_unpadded_len(s, id);
}

/// Each place counts every character of the alphabet differently, up to a multiple of 32.
proof fn lemma_addend(c: char, d: char, i: int)
    requires
        codepoint(c) is Some,
        codepoint(d) is Some,
        c != d,
    ensures
        addend(c, i) < 32,
        addend(d, i) < 32,
        addend(c, i) != addend(d, i),
{
    assert(codepoint(c)->0 != codepoint(d)->0);
}

/// Where two texts differ in one character, so do their sums, up to a multiple of 32.
proof fn lemma_luhn_sum(s: Seq<char>, t: Seq<char>, i: int)
    requires
        s.len() == t.len(),
        0 <= i < s.len(),
        forall|j: int| 0 <= j < s.len() && j != i ==> #[trigger] s[j] == t[j],
    ensures
        luhn_sum(s) - luhn_sum(t) == addend(s[i], i) - addend(t[i], i),
    decreases s.len(),
{
    if i == s.len() - 1 {
        assert(s.drop_last() =~= t.drop_last());
    } else {
        assert(s[s.len() - 1] == t[s.len() - 1]);
        lemma_luhn_sum(s.drop_last(), t.drop_last(), i);
    }
}

/// Numbers that differ by less than 32 lack different amounts to a multiple of 32.
proof fn lemma_fills_up(a: int, b: int, x: int, y: int)
    requires
        a - b == x - y,
        0 <= x < 32,
        0 <= y < 32,
        x != y,
    ensures
        (32 - a % 32) % 32 != (32 - b % 32) % 32,
{
}

/// All characters are valid where none is the first that is not.
proof fn lemma_all_valid(s: Seq<char>)
    ensures
        first_invalid(s) is None <==> forall|j: int|
            0 <= j < s.len() ==> codepoint(#[trigger] s[j]) is Some,
{
    if first_invalid(s) is None {
        assert forall|j: int| 0 <= j < s.len() implies codepoint(#[trigger] s[j]) is Some by {
            lemma_valid_chars(s, j);
        }
    } else if forall|j: int| 0 <= j < s.len() ==> codepoint(#[trigger] s[j]) is Some {
        lemma_first_invalid(s, s.len() as int);
        assert(s.skip(s.len() as int).len() == 0);
    }
}

/// A text has a check digit where all of its characters are in the alphabet; the digit
/// is in the alphabet too, and one wrong character changes it.
pub proof fn law_check_digit(s: Seq<char>, t: Seq<char>, i: int)
    requires
        s.len() == t.len(),
        0 <= i < s.len(),
        s[i] != t[i],
        forall|j: int| 0 <= j < s.len() && j != i ==> #[trigger] s[j] == t[j],
    ensures
        first_invalid(s) is None <==> forall|j: int|
            0 <= j < s.len() ==> codepoint(#[trigger] s[j]) is Some,
        codepoint(luhn_digit(s)) is Some,
        first_invalid(s) is None && first_invalid(t) is None ==> luhn_digit(s) != luhn_digit(t),
{
    lemma_all_valid(s);
    let a = luhn_sum(s) as int;
    let b = luhn_sum(t) as int;
    let x = (32 - a % 32) % 32;
    let y = (32 - b % 32) % 32;
    assert(codepoint(symbol(x)) == Some(x as nat)) by {
        lemma_symbol(x);
    }
    assert(codepoint(symbol(y)) == Some(y as nat)) by {
        lemma_symbol(y);
    }
    if first_invalid(s) is None && first_invalid(t) is None {
        assert(codepoint(s[i]) is Some && codepoint(t[i]) is Some) by {
            lemma_valid_chars(s, i);
            lemma_valid_chars(t, i);
        }
        lemma_addend(s[i], t[i], i);
        lemma_luhn_sum(s, t, i);
        lemma_fills_up(a, b, addend(s[i], i) as int, addend(t[i], i) as int);
    }
}

/// A group with one wrong character makes a text invalid.
proof fn lemma_group_refused(s: Seq<char>, t: Seq<char>, i: int, g: int)
    requires
        s.len() == 56,
        t.len() == 56,
        0 <= i < 56,
        0 <= g <= i / 14,
        s[i] != t[i],
        forall|j: int| 0 <= j < 56 && j != i ==> #[trigger] s[j] == t[j],
        group_error(s, g) is None,
    ensures
        group_error(t, g) is Some,
    decreases 4 - g,
{
    let p = s.subrange(14 * g, 14 * g + 13);
    let q = t.subrange(14 * g, 14 * g + 13);
    if g < i / 14 {
        assert(p =~= q);
        assert(s[14 * g + 13] == t[14 * g + 13]);
        lemma_group_refused(s, t, i, g + 1);
    } else if i % 14 == 13 {
        assert(i == 14 * g + 13);
        assert(p =~= q);
    } else {
        let k = i - 14 * g;
        assert(p[k] == s[i] && q[k] == t[i]);
        assert forall|j: int| 0 <= j < 13 && j != k implies #[trigger] p[j] == q[j] by {
            assert(s[14 * g + j] == t[14 * g + j]);
        }
        law_check_digit(p, q, k);
        assert(s[14 * g + 13] == t[14 * g + 13]);
    }
}

proof fn lemma_unluhnified(s: Seq<char>)
    requires
        s.len() == 52,
    ensures
        unluhnified(luhnified(s)) == s,
{
    let t = luhnified(s);
    let u = unluhnified(t);
    assert forall|k: int| 0 <= k < 52 implies u[k] == s[k] by {
        let j = k / 13 * 14 + k % 13;
        assert(j / 14 == k / 13);
        assert(j % 14 == k % 13);
        assert(u[k] == t[j]);
    }
    assert(u =~= s);
}

/// There is a character that is not in the alphabet exactly where one is found, and a check
/// digit is in the alphabet.
pub proof fn law_alphabet(s: Seq<char>)
    ensures
        first_invalid(s) is None <==> forall|i: int|
            0 <= i < s.len() ==> codepoint(#[trigger] s[i]) is Some,
        codepoint(luhn_digit(s)) is Some,
{
    lemma_symbol((32 - luhn_sum(s) % 32) % 32);
    if first_invalid(s) is None {
        assert forall|i: int| 0 <= i < s.len() implies codepoint(#[trigger] s[i]) is Some by {
            lemma_valid_chars(s, i);
        }
    }
    if forall|i: int| 0 <= i < s.len() ==> codepoint(#[trigger] s[i]) is Some {
        lemma_first_invalid(s, s.len() as int);
    }
}

/// Taking the check digits away gives the characters back.
pub proof fn law_check_digits_taken_away(s: Seq<char>)
    requires
        s.len() == 52,
        first_invalid(s) is None,
    ensures
        luhnified(s).len() == 56,
        group_error(luhnified(s), 0) is None,
        unluhnified(luhnified(s)) == s,
{
    lemma_groups_valid(s, 0);
    lemma_unluhnified(s);
}

/// Taking the check digits away gives the characters back, and one wrong character,
/// be it a check digit or not, makes the text invalid.
pub proof fn law_wrong_character_refused(s: Seq<char>, t: Seq<char>, i: int)
    requires
        s.len() == 52,
        first_invalid(s) is None,
        t.len() == 56,
        0 <= i < 56,
        luhnified(s)[i] != t[i],
        forall|j: int| 0 <= j < 56 && j != i ==> #[trigger] luhnified(s)[j] == t[j],
    ensures
        group_error(luhnified(s), 0) is None,
        unluhnified(luhnified(s)) == s,
        group_error(t, 0) is Some,
{
    lemma_groups_valid(s, 0);
    lemma_unluhnified(s);
    lemma_group_refused(luhnified(s), t, i, 0);
}

/// The character `c` may be written for `d`: in lower case, or as the digit that looks
/// like it.
pub open spec fn may_stand_for(c: char, d: char) -> bool {
    ||| c == d
    ||| 'A' <= d && d <= 'Z' && c as u32 == d as u32 + 32
    ||| c == '0' && d == 'O'
    ||| c == '1' && d == 'I'
    ||| c == '8' && d == 'B'
}

/// The texts are the same but for dashes and spaces, which may be anywhere, and for
/// characters that stand for each other.
pub open spec fn reads_like(t: Seq<char>, s: Seq<char>) -> bool {
    let a = without_gaps(t);
    let b = without_gaps(s);
    &&& a.len() == b.len()
    &&& forall|i: int| 0 <= i < a.len() ==> may_stand_for(#[trigger] a[i], b[i])
}

/// Cleaning a text changes each character that is neither a dash nor a space.
proof fn lemma_cleaned_chars(s: Seq<char>)
    ensures
        cleaned(s).len() == without_gaps(s).len(),
        forall|i: int|
            0 <= i < cleaned(s).len() ==> #[trigger] cleaned(s)[i] == without_typo(
                uppercase(without_gaps(s)[i]),
            ),
    decreases s.len(),
{
    if s.len() > 0 {
        lemma_cleaned_chars(s.drop_last());
    }
}

/// A text is in ASCII where its characters but for dashes and spaces are.
proof fn lemma_gaps_ascii(s: Seq<char>)
    requires
        all_ascii(without_gaps(s)),
    ensures
        all_ascii(s),
    decreases s.len(),
{
    if s.len() > 0 {
        let r = without_gaps(s.drop_last());
        assert forall|i: int| 0 <= i < r.len() implies (#[trigger] r[i] as u32) < 128 by {
            assert(without_gaps(s)[i] == r[i]);
        }
        lemma_gaps_ascii(s.drop_last());
        if s.last() != '-' && s.last() != ' ' {
            assert(without_gaps(s)[r.len() as int] == s.last());
        }
        assert forall|i: int| 0 <= i < s.len() implies (#[trigger] s[i] as u32) < 128 by {
            if i < s.len() - 1 {
                assert(s.drop_last()[i] == s[i]);
            }
        }
    }
}

/// The text form of an id stands for that id, also where it is in lower case, with
/// other dashes and spaces, or with digits for the letters they look like.
pub proof fn law_text_read_leniently(id: Seq<u8>, t: Seq<char>)
    requires
        id.len() == DEVICE_ID_LEN,
        reads_like(t, text_of_id(id)),
    ensures
        id_of_text(t) == Ok::<Seq<u8>, DeviceIdError>(id),
{
    let text = text_of_id(id);
    let c = luhnified(base32(id).take(52));
    let a = without_gaps(t);
    lemma_text_symbols(id);
    law_text_round_trip(id);
    lemma_cleaned_chars(t);
    assert forall|i: int| 0 <= i < a.len() implies (#[trigger] a[i] as u32) < 128 && cleaned(t)[i]
        == c[i] by {
        assert(may_stand_for(a[i], c[i]));
        assert(codepoint(c[i]) is Some);
        assert(cleaned(t)[i] == without_typo(uppercase(a[i])));
    }
    assert(all_ascii(a));
    lemma_gaps_ascii(t);
    assert(cleaned(t) =~= cleaned(text));
}

} // verus!
