//! Content addressing: the SHA-1 digest of a byte string and its display as
//! forty lowercase hexadecimal characters.

use vstd::prelude::*;
use vstd::string::*;

verus! {

/// The SHA-1 digest of `data`, as the `sha1` crate computes it.
pub uninterp spec fn sha1_of(data: Seq<u8>) -> Seq<u8>;

/// The lowercase hexadecimal character for a value below sixteen.
pub open spec fn hex_digit(n: int) -> u8 {
    if n < 10 {
        (48 + n) as u8
    } else {
        (87 + n) as u8
    }
}

/// `c` is one of `0` to `9` or `a` to `f`.
pub open spec fn is_hex_digit(c: u8) -> bool {
    (48 <= c <= 57) || (97 <= c <= 102)
}

/// The value of a hexadecimal character.
pub open spec fn hex_value(c: u8) -> int {
    if c <= 57 {
        c - 48
    } else {
        c - 87
    }
}

/// Every byte of `s` is a lowercase hexadecimal character.
pub open spec fn is_hex(s: Seq<u8>) -> bool {
    forall|i: int| 0 <= i < s.len() ==> is_hex_digit(#[trigger] s[i])
}

/// The hexadecimal display of `s`: two characters for each byte, the high
/// half first.
pub open spec fn hex_of(s: Seq<u8>) -> Seq<u8> {
    Seq::new(
        2 * s.len(),
        |i: int|
            if i % 2 == 0 {
                hex_digit(s[i / 2] as int / 16)
            } else {
                hex_digit(s[i / 2] as int % 16)
            },
    )
}

/// The hexadecimal display of `s` as characters.
pub open spec fn hex_chars(s: Seq<u8>) -> Seq<char> {
    Seq::new(2 * s.len(), |i: int| hex_of(s)[i] as char)
}

/// A digest: twenty bytes that stand for the content they were computed from.
#[derive(Clone, Copy, Debug, PartialEq, Eq, Hash)]
pub struct Digest {
    pub bytes: [u8; 20],
}

impl View for Digest {
    type V = Seq<u8>;

    open spec fn view(&self) -> Seq<u8> {
        self.bytes@
    }
}

/// The display of a byte string consists of hexadecimal characters only.
pub proof fn lemma_hex_of_is_hex(s: Seq<u8>)
    ensures
        is_hex(hex_of(s)),
        hex_of(s).len() == 2 * s.len(),
{
}

/// Two byte strings with the same display are the same.
pub proof fn lemma_hex_injective(a: Seq<u8>, b: Seq<u8>)
    requires
        hex_of(a) == hex_of(b),
    ensures
        a == b,
{
    assert(hex_of(a).len() == 2 * a.len());
    assert(hex_of(b).len() == 2 * b.len());
    assert forall|i: int| 0 <= i < a.len() implies a[i] == b[i] by {
        assert((2 * i) / 2 == i && (2 * i) % 2 == 0);
        assert((2 * i + 1) / 2 == i && (2 * i + 1) % 2 == 1);
        assert(hex_of(a)[2 * i] == hex_digit(a[i] as int / 16));
        assert(hex_of(b)[2 * i] == hex_digit(b[i] as int / 16));
        assert(hex_of(a)[2 * i + 1] == hex_digit(a[i] as int % 16));
        assert(hex_of(b)[2 * i + 1] == hex_digit(b[i] as int % 16));
    }
    assert(a =~= b);
}

/// Two digests with the same bytes are the same digest.
pub proof fn lemma_digest_ext(a: Digest, b: Digest)
    requires
        a@ == b@,
    ensures
        a == b,
{
    broadcast use vstd::array::axiom_array_ext_equal;

    assert(a.bytes =~= b.bytes);
}

/// Computes SHA-1 with the `sha1` crate: a hasher from `Sha1::default` is
/// fed `data` once by `Digest::update` and closed by `Digest::finalize`. The
/// twenty bytes returned are the crate's output for exactly these bytes.
#[verifier::external_body]
fn sha1_digest(data: &[u8]) -> (out: [u8; 20])
    ensures
        out@ == sha1_of(data@),
{
    let mut hasher = sha1::Sha1::default();
    sha1::Digest::update(&mut hasher, data);
    sha1::Digest::finalize(hasher).into()
}

/// The character for a value below sixteen.
fn hex_char(n: u8) -> (c: u8)
    requires
        n < 16,
    ensures
        c == hex_digit(n as int),
        is_hex_digit(c),
{
    if n < 10 {
        48 + n
    } else {
        87 + n
    }
}

/// The one-character string for a value below sixteen.
fn hex_str(n: u8) -> (s: &'static str)
    requires
        n < 16,
    ensures
        s@ == seq![hex_digit(n as int) as char],
{
    proof {
        reveal_strlit("0");
        reveal_strlit("1");
        reveal_strlit("2");
        reveal_strlit("3");
        reveal_strlit("4");
        reveal_strlit("5");
        reveal_strlit("6");
        reveal_strlit("7");
        reveal_strlit("8");
        reveal_strlit("9");
        reveal_strlit("a");
        reveal_strlit("b");
        reveal_strlit("c");
        reveal_strlit("d");
        reveal_strlit("e");
        reveal_strlit("f");
    }
    let s = match n {
        0 => "0",
        1 => "1",
        2 => "2",
        3 => "3",
        4 => "4",
        5 => "5",
        6 => "6",
        7 => "7",
        8 => "8",
        9 => "9",
        10 => "a",
        11 => "b",
        12 => "c",
        13 => "d",
        14 => "e",
        _ => "f",
    };
    assert(s@ =~= seq![hex_digit(n as int) as char]);
    s
}

/// The value of a hexadecimal character, if it is one.
fn hex_digit_value(c: u8) -> (v: Option<u8>)
    ensures
        v is Some <==> is_hex_digit(c),
        v matches Some(n) ==> n < 16 && n == hex_value(c) && hex_digit(n as int) == c,
{
    if 48 <= c && c <= 57 {
        Some(c - 48)
    } else if 97 <= c && c <= 102 {
        Some(c - 87)
    } else {
        None
    }
}

impl Digest {
    /// The digest of `data`. Equal bytes always give equal digests, and the
    /// empty byte string has a digest like any other.
    pub fn of(data: &[u8]) -> (d: Digest)
        ensures
            d@ == sha1_of(data@),
    {
        Digest { bytes: sha1_digest(data) }
    }

    /// Whether two digests are the same.
    pub fn same_as(&self, other: &Digest) -> (same: bool)
        ensures
            same == (self@ == other@),
            same == (*self == *other),
    {
        let mut i: usize = 0;
        while i < 20
            invariant
                i <= 20,
                forall|k: int| 0 <= k < i ==> self.bytes@[k] == other.bytes@[k],
            decreases 20 - i,
        {
            if self.bytes[i] != other.bytes[i] {
                return false;
            }
            i += 1;
        }
        proof {
            assert(self@ =~= other@);
            lemma_digest_ext(*self, *other);
        }
        true
    }

    /// The forty hexadecimal characters of this digest, as bytes.
    pub fn hex_bytes(&self) -> (out: Vec<u8>)
        ensures
            out@ == hex_of(self@),
            out@.len() == 40,
    {
        let mut out: Vec<u8> = Vec::new();
        let mut i: usize = 0;
        while i < 20
            invariant
                i <= 20,
                out@.len() == 2 * i,
                forall|k: int| 0 <= k < 2 * i ==> out@[k] == hex_of(self@)[k],
            decreases 20 - i,
        {
            let b = self.bytes[i];
            let ghost before = out@;
            out.push(hex_char(b / 16));
            out.push(hex_char(b % 16));
            proof {
                assert((2 * i) / 2 == i && (2 * i) % 2 == 0);
                assert((2 * i + 1) / 2 == i && (2 * i + 1) % 2 == 1);
                assert forall|k: int| 0 <= k < 2 * (i + 1) implies out@[k] == hex_of(self@)[k] by {
                    if k < 2 * i {
                        assert(out@[k] == before[k]);
                    }
                }
            }
            i += 1;
        }
        assert(out@ =~= hex_of(self@));
        out
    }

    /// The characters of this digest's hexadecimal display from position
    /// `from` up to position `to`, as a string.
    pub fn hex_range(&self, from: usize, to: usize) -> (out: String)
        requires
            from <= to <= 40,
        ensures
            out@ == hex_chars(self@).subrange(from as int, to as int),
    {
        let mut out = String::new();
        let mut i: usize = from;
        while i < to
            invariant
                from <= i <= to <= 40,
                out@ == hex_chars(self@).subrange(from as int, i as int),
            decreases to - i,
        {
            let b = self.bytes[i / 2];
            let n = if i % 2 == 0 {
                b / 16
            } else {
                b % 16
            };
            out.append(hex_str(n));
            assert(hex_chars(self@).subrange(from as int, i + 1) =~= hex_chars(self@).subrange(
                from as int,
                i as int,
            ) + seq![hex_digit(n as int) as char]);
            i += 1;
        }
        out
    }

    /// The forty hexadecimal characters of this digest, as a string.
    pub fn to_hex(&self) -> (out: String)
        ensures
            out@ == hex_chars(self@),
            out@.len() == 40,
    {
        let out = self.hex_range(0, 40);
        assert(hex_chars(self@).subrange(0, 40) =~= hex_chars(self@));
        out
    }

    /// Reads a digest back from its hexadecimal display. There is one exactly
    /// when `text` is forty lowercase hexadecimal characters.
    pub fn from_hex(text: &[u8]) -> (d: Option<Digest>)
        ensures
            d is Some <==> text@.len() == 40 && is_hex(text@),
            d matches Some(found) ==> hex_of(found@) == text@,
    {
        if text.len() != 40 {
            return None;
        }
        let mut bytes: [u8; 20] = [0u8; 20];
        let mut i: usize = 0;
        while i < 20
            invariant
                i <= 20,
                text@.len() == 40,
                forall|k: int| 0 <= k < 2 * i ==> is_hex_digit(#[trigger] text@[k]),
                forall|k: int|
                    0 <= k < i ==> hex_digit(#[trigger] bytes@[k] as int / 16) == text@[2 * k]
                        && hex_digit(bytes@[k] as int % 16) == text@[2 * k + 1],
            decreases 20 - i,
        {
            let hi = hex_digit_value(text[2 * i]);
            let lo = hex_digit_value(text[2 * i + 1]);
            match (hi, lo) {
                (Some(h), Some(l)) => {
                    let v: u8 = h * 16 + l;
                    assert(v as int / 16 == h && v as int % 16 == l);
                    bytes[i] = v;
                },
                _ => {
                    return None;
                },
            }
            i += 1;
        }
        let found = Digest { bytes };
        proof {
            assert(is_hex(text@));
            assert forall|k: int| 0 <= k < 40 implies hex_of(found@)[k] == text@[k] by {
                let j = k / 2;
                assert(0 <= j < 20);
                if k % 2 == 0 {
                    assert(k == 2 * j);
                } else {
                    assert(k == 2 * j + 1);
                }
            }
            assert(hex_of(found@) =~= text@);
        }
        Some(found)
    }
}

/// The digest of `content` in its hexadecimal display.
pub fn calculate_sha1(content: &[u8]) -> (hex: String)
    ensures
        hex@ == hex_chars(sha1_of(content@)),
        hex@.len() == 40,
{
    Digest::of(content).to_hex()
}

/// Digests are a function of the bytes alone: equal inputs have equal digests
/// and equal displays.
pub proof fn lemma_digest_deterministic(a: Seq<u8>, b: Seq<u8>)
    requires
        a == b,
    ensures
        sha1_of(a) == sha1_of(b),
        hex_of(sha1_of(a)) == hex_of(sha1_of(b)),
        hex_chars(sha1_of(a)) == hex_chars(sha1_of(b)),
{
}

} // verus!
