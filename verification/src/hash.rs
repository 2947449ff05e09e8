//! 20-byte content digests: hashing, hex text form, fan-out storage paths.

use vstd::prelude::*;
use vstd::slice::{slice_subrange, slice_to_vec};
use vstd::string::{StringExecFns, StringSliceAdditionalSpecFns};

use sha1::Digest;

use crate::error::GitError;

verus! {

/// The lower-case hex character for a value below 16.
pub open spec fn hex_digit(n: u8) -> char {
    if n == 0 {
        '0'
    } else if n == 1 {
        '1'
    } else if n == 2 {
        '2'
    } else if n == 3 {
        '3'
    } else if n == 4 {
        '4'
    } else if n == 5 {
        '5'
    } else if n == 6 {
        '6'
    } else if n == 7 {
        '7'
    } else if n == 8 {
        '8'
    } else if n == 9 {
        '9'
    } else if n == 10 {
        'a'
    } else if n == 11 {
        'b'
    } else if n == 12 {
        'c'
    } else if n == 13 {
        'd'
    } else if n == 14 {
        'e'
    } else {
        'f'
    }
}

/// The hex rendering of a byte sequence: two lower-case digits per byte.
pub open spec fn hex_chars(bytes: Seq<u8>) -> Seq<char> {
    Seq::new(
        (bytes.len() * 2) as nat,
        |i: int|
            if i % 2 == 0 {
                hex_digit((bytes[i / 2] / 16) as u8)
            } else {
                hex_digit((bytes[i / 2] % 16) as u8)
            },
    )
}

/// The ASCII code of the lower-case hex digit for a value below 16.
pub open spec fn hex_digit_byte(n: u8) -> u8 {
    if n < 10 {
        (48 + n) as u8
    } else {
        (87 + n) as u8
    }
}

/// The hex rendering of a byte sequence as ASCII bytes.
pub open spec fn hex_ascii(bytes: Seq<u8>) -> Seq<u8> {
    Seq::new(
        (bytes.len() * 2) as nat,
        |i: int|
            if i % 2 == 0 {
                hex_digit_byte((bytes[i / 2] / 16) as u8)
            } else {
                hex_digit_byte((bytes[i / 2] % 16) as u8)
            },
    )
}

/// Whether an input byte is an ASCII hex digit, upper or lower case.
pub open spec fn is_hex_digit(c: u8) -> bool {
    (48 <= c <= 57) || (97 <= c <= 102) || (65 <= c <= 70)
}

/// The value of an ASCII hex digit.
pub open spec fn hex_val(c: u8) -> u8 {
    if 48 <= c <= 57 {
        (c - 48) as u8
    } else if 97 <= c <= 102 {
        (c - 87) as u8
    } else {
        (c - 55) as u8
    }
}

/// Whether every byte of the sequence is an ASCII hex digit.
pub open spec fn all_hex_digits(s: Seq<u8>) -> bool {
    forall|i: int| 0 <= i < s.len() ==> #[trigger] is_hex_digit(s[i])
}

/// The bytes denoted by a hex digit sequence, two digits per byte.
pub open spec fn spec_hex_decode(s: Seq<u8>) -> Seq<u8> {
    Seq::new((s.len() / 2) as nat, |i: int| (hex_val(s[2 * i]) * 16 + hex_val(s[2 * i + 1])) as u8)
}

/// The characters of a digest's storage path: the first two hex digits,
/// a slash, then the remaining 38.
pub open spec fn storage_path_chars(h: Seq<u8>) -> Seq<char> {
    hex_chars(h).subrange(0, 2) + seq!['/'] + hex_chars(h).subrange(2, 40)
}

/// Whether a character is a lower-case hex digit.
pub open spec fn is_hex_digit_char(c: char) -> bool {
    (48 <= c as u32 <= 57) || (97 <= c as u32 <= 102)
}

/// The storage path of a 20-byte digest is two hex characters, a slash,
/// then 38 more: 41 characters, 40 of them hex.
pub proof fn lemma_storage_path_shape(h: Seq<u8>)
    requires
        h.len() == 20,
    ensures
        storage_path_chars(h).len() == 41,
        storage_path_chars(h)[2] == '/',
        forall|i: int|
            0 <= i < 41 && i != 2 ==> is_hex_digit_char(#[trigger] storage_path_chars(h)[i]),
{
    assert forall|i: int| 0 <= i < 41 && i != 2 implies is_hex_digit_char(
        #[trigger] storage_path_chars(h)[i],
    ) by {
        let j: int = if i < 2 {
            i
        } else {
            i - 1
        };
        assert(storage_path_chars(h)[i] == hex_chars(h)[j]);
        let v: u8 = if j % 2 == 0 {
            (h[j / 2] / 16) as u8
        } else {
            (h[j / 2] % 16) as u8
        };
        assert(v < 16);
        assert(hex_chars(h)[j] == hex_digit(v));
        assert(is_hex_digit_char(hex_digit(v)));
    }
}

/// The SHA-1 digest of a byte sequence, named but not defined here: the
/// `sha1` crate computes it, and its value depends on the input alone.
pub uninterp spec fn sha1_of(data: Seq<u8>) -> Seq<u8>;

/// Relies on `sha1::Sha1::digest`: a pure function of the input bytes whose
/// output is always 20 bytes.
#[verifier::external_body]
fn sha1_digest_bytes(data: &[u8]) -> (r: Vec<u8>)
    ensures
        r@ == sha1_of(data@),
        r@.len() == 20,
{
    sha1::Sha1::digest(data).to_vec()
}

/// A 20-byte content digest.  Equality is byte equality; the textual form is
/// 40 lower-case hex characters.
#[derive(Debug)]
pub struct Sha1Hash {
    pub bytes: Vec<u8>,
}

impl View for Sha1Hash {
    type V = Seq<u8>;

    open spec fn view(&self) -> Seq<u8> {
        self.bytes@
    }
}

impl Sha1Hash {
    /// A well-formed digest holds exactly 20 bytes.
    pub open spec fn wf(&self) -> bool {
        self@.len() == 20
    }

    /// The SHA-1 digest of the given bytes.
    pub fn digest(data: &[u8]) -> (r: Sha1Hash)
        ensures
            r@ == sha1_of(data@),
            r@.len() == 20,
            r.wf(),
    {
        Sha1Hash { bytes: sha1_digest_bytes(data) }
    }

    /// Wraps a byte slice as a digest; fails unless it is exactly 20 bytes.
    pub fn from_bytes(value: &[u8]) -> (r: Result<Sha1Hash, GitError>)
        ensures
            r is Ok <==> value@.len() == 20,
            r matches Ok(h) ==> h@ == value@ && h.wf(),
            r matches Err(e) ==> e is SizeNotMatch,
    {
        if value.len() == 20 {
            Ok(Sha1Hash { bytes: slice_to_vec(value) })
        } else {
            Err(GitError::SizeNotMatch)
        }
    }

    /// A copy of this digest with the same bytes.
    pub fn duplicate(&self) -> (r: Sha1Hash)
        ensures
            r@ == self@,
    {
        Sha1Hash { bytes: slice_to_vec(self.bytes.as_slice()) }
    }

    /// Decodes 40 hex characters into a digest.  A malformed digit or an odd
    /// length is a `DecodeError`; any other length is a `SizeNotMatch`.
    pub fn parse_hex(s: &str) -> (r: Result<Sha1Hash, GitError>)
        ensures
            r is Ok <==> (s.spec_bytes().len() == 40 && all_hex_digits(s.spec_bytes())),
            r matches Ok(h) ==> h@ == spec_hex_decode(s.spec_bytes()) && h.wf(),
            r matches Err(e) ==> {
                if s.spec_bytes().len() % 2 == 1 || !all_hex_digits(s.spec_bytes()) {
                    e is DecodeError
                } else {
                    e is SizeNotMatch
                }
            },
    {
        let b = s.as_bytes();
        let n = b.len();
        if n % 2 == 1 {
            return Err(GitError::DecodeError);
        }
        let mut out: Vec<u8> = Vec::new();
        let half = n / 2;
        for i in 0..half
            invariant
                b@ == s.spec_bytes(),
                n == b@.len(),
                half == n / 2,
                n % 2 == 0,
                out@.len() == i,
                forall|k: int| 0 <= k < 2 * i ==> #[trigger] is_hex_digit(b@[k]),
                out@ == spec_hex_decode(b@.take(2 * i)),
        {
            let hi = b[2 * i];
            let lo = b[2 * i + 1];
            if !(hi >= 48 && hi <= 57 || hi >= 97 && hi <= 102 || hi >= 65 && hi <= 70) {
                proof {
                    assert(!is_hex_digit(b@[2 * i]));
                }
                return Err(GitError::DecodeError);
            }
            if !(lo >= 48 && lo <= 57 || lo >= 97 && lo <= 102 || lo >= 65 && lo <= 70) {
                proof {
                    assert(!is_hex_digit(b@[2 * i + 1]));
                }
                return Err(GitError::DecodeError);
            }
            let hv = if hi <= 57 {
                hi - 48
            } else if hi >= 97 {
                hi - 87
            } else {
                hi - 55
            };
            let lv = if lo <= 57 {
                lo - 48
            } else if lo >= 97 {
                lo - 87
            } else {
                lo - 55
            };
            out.push(hv * 16 + lv);
            proof {
                assert(out@ =~= spec_hex_decode(b@.take(2 * (i + 1))));
            }
        }
        proof {
            assert(b@.take(2 * (half as int)) =~= b@);
        }
        if n != 40 {
            return Err(GitError::SizeNotMatch);
        }
        Ok(Sha1Hash { bytes: out })
    }

    /// The 40-character lower-case hex rendering of this digest.
    pub fn hex_string(&self) -> (r: String)
        requires
            self.wf(),
        ensures
            r@ == hex_chars(self@),
    {
        hex_string_of(self.bytes.as_slice())
    }

    /// The two-level storage path of this digest: the first two hex
    /// characters name the fan-out directory, the remaining 38 the file.
    pub fn sha1_file_name(&self) -> (r: String)
        requires
            self.wf(),
        ensures
            r@ == storage_path_chars(self@),
    {
        let dir = hex_string_of(slice_subrange(self.bytes.as_slice(), 0, 1));
        let rest = hex_string_of(slice_subrange(self.bytes.as_slice(), 1, 20));
        let mut out = dir;
        out.append("/");
        out.append(rest.as_str());
        proof {
            reveal_strlit("/");
            assert(hex_chars(self@.subrange(0, 1)) =~= hex_chars(self@).subrange(0, 2));
            assert(hex_chars(self@.subrange(1, 20)) =~= hex_chars(self@).subrange(2, 40));
        }
        out
    }
}

/// The lower-case hex rendering of a byte slice.
pub fn hex_string_of(bytes: &[u8]) -> (r: String)
    ensures
        r@ == hex_chars(bytes@),
{
    let mut out = String::new();
    let n = bytes.len();
    for i in 0..n
        invariant
            n == bytes@.len(),
            out@ == hex_chars(bytes@.take(i as int)),
    {
        let b = bytes[i];
        out.append(hex_digit_str(b / 16));
        out.append(hex_digit_str(b % 16));
        proof {
            assert(out@ =~= hex_chars(bytes@.take(i + 1)));
        }
    }
    proof {
        assert(bytes@.take(n as int) =~= bytes@);
    }
    out
}

/// The lower-case hex rendering of a byte slice, as ASCII bytes.
pub fn hex_ascii_of(bytes: &[u8]) -> (r: Vec<u8>)
    ensures
        r@ == hex_ascii(bytes@),
{
    let mut out: Vec<u8> = Vec::new();
    let n = bytes.len();
    for i in 0..n
        invariant
            n == bytes@.len(),
            out@ == hex_ascii(bytes@.take(i as int)),
    {
        let b = bytes[i];
        let hi = b / 16;
        let lo = b % 16;
        out.push(if hi < 10 {
            48 + hi
        } else {
            87 + hi
        });
        out.push(if lo < 10 {
            48 + lo
        } else {
            87 + lo
        });
        proof {
            assert(out@ =~= hex_ascii(bytes@.take(i + 1)));
        }
    }
    proof {
        assert(bytes@.take(n as int) =~= bytes@);
    }
    out
}

/// The name of one fan-out directory: the two hex digits of its index byte.
pub fn fanout_dir_name(b: u8) -> (r: String)
    ensures
        r@ == hex_chars(seq![b]),
{
    let mut out = String::new();
    out.append(hex_digit_str(b / 16));
    out.append(hex_digit_str(b % 16));
    proof {
        assert(out@ =~= hex_chars(seq![b]));
    }
    out
}

/// The one-character string for a hex digit value.
fn hex_digit_str(n: u8) -> (r: &'static str)
    requires
        n < 16,
    ensures
        r@ == seq![hex_digit(n)],
{
    proof {
        reveal_strlit("0");
        reveal_strlit("1");
        reveal_strlit("2");
        reveal_strlit("3");
        reveal_strlit("4");
        reveal_strlit("5");
        reveal_strlit("6");
        reveal_strlit("7");
        reveal_strlit("8");
        reveal_strlit("9");
        reveal_strlit("a");
        reveal_strlit("b");
        reveal_strlit("c");
        reveal_strlit("d");
        reveal_strlit("e");
        reveal_strlit("f");
    }
    match n {
        0 => "0",
        1 => "1",
        2 => "2",
        3 => "3",
        4 => "4",
        5 => "5",
        6 => "6",
        7 => "7",
        8 => "8",
        9 => "9",
        10 => "a",
        11 => "b",
        12 => "c",
        13 => "d",
        14 => "e",
        _ => "f",
    }
}

} // verus!
