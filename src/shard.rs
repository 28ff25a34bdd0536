//! Shard addressing: from a row's identifying text to its numeric id, and
//! from a numeric id to the shard file that owns it.
use vstd::prelude::*;
use vstd::string::StringExecFns;

verus! {

/// Number of digits of a numeric id.
pub const ID_WIDTH: usize = 25;

/// Number of digits of the digest prefix that makes up a numeric id.
pub const ID_BYTES: usize = 10;

/// Number of trailing digits of a numeric id that locate it within a shard.
pub const OFFSET_DIGITS: usize = 7;

/// The SHA-256 digest of a byte string.
pub uninterp spec fn sha256_of(data: Seq<u8>) -> Seq<u8>;

/// The value of a byte string read as a big-endian unsigned number.
pub open spec fn be_value(b: Seq<u8>) -> nat
    decreases b.len(),
{
    if b.len() == 0 {
        0
    } else {
        be_value(b.drop_last()) * 256 + b.last() as nat
    }
}

/// The decimal digit for `d < 10`.
pub open spec fn digit_char(d: nat) -> char {
    seq!['0', '1', '2', '3', '4', '5', '6', '7', '8', '9'][d as int]
}

/// The decimal rendering of `n`, without leading zeros.
pub open spec fn decimal_text(n: nat) -> Seq<char>
    decreases n,
{
    if n < 10 {
        seq![digit_char(n)]
    } else {
        decimal_text(n / 10).push(digit_char(n % 10))
    }
}

/// `s` with zeros in front up to `w` characters.
pub open spec fn zero_padded(s: Seq<char>, w: nat) -> Seq<char> {
    if s.len() < w {
        Seq::new((w - s.len()) as nat, |i: int| '0') + s
    } else {
        s
    }
}

/// The numeric id of an identifying text: the first ten bytes of the SHA-256
/// digest of its UTF-8 encoding, read big-endian, in decimal, padded with
/// zeros to a fixed width.
pub open spec fn numeric_id(text: Seq<char>) -> Seq<char> {
    zero_padded(
        decimal_text(be_value(sha256_of(vstd::utf8::encode_utf8(text)).subrange(0, ID_BYTES as int))),
        ID_WIDTH as nat,
    )
}

/// The leading digits of a numeric id, shared by every id of its shard.
pub open spec fn shard_prefix(id: Seq<char>) -> Seq<char> {
    if id.len() >= OFFSET_DIGITS {
        id.subrange(0, id.len() - OFFSET_DIGITS)
    } else {
        Seq::empty()
    }
}

/// The first and last ids of the shard that owns `id`.
pub open spec fn shard_bounds(id: Seq<char>) -> (Seq<char>, Seq<char>) {
    (shard_prefix(id) + "0000000"@, shard_prefix(id) + "9999999"@)
}

/// The name of the shard file that owns `id`.
pub open spec fn shard_file(id: Seq<char>) -> Seq<char> {
    shard_bounds(id).0 + "-"@ + shard_bounds(id).1
}

/// Relies on sha2's `Sha256::digest`: the 32-byte SHA-256 digest of the input.
#[verifier::external_body]
fn sha256(data: &[u8]) -> (r: Vec<u8>)
    ensures
        r@ == sha256_of(data@),
        r@.len() == 32,
{
    <sha2::Sha256 as sha2::Digest>::digest(data).to_vec()
}

/// Relies on num_bigint's `BigUint::from_bytes_be` and `to_str_radix(10)`:
/// the decimal digits of the big-endian number, "0" for zero.
#[verifier::external_body]
fn decimal_of_be(bytes: &[u8]) -> (r: String)
    ensures
        r@ == decimal_text(be_value(bytes@)),
{
    num_bigint::BigUint::from_bytes_be(bytes).to_str_radix(10)
}

/// The numeric id of an identifying text.
pub fn string_to_numerical_uuid(input: &str) -> (r: String)
    ensures
        r@ == numeric_id(input@),
{
    let digest = sha256(input.as_bytes());
    let mut head: Vec<u8> = Vec::new();
    let mut i: usize = 0;
    while i < ID_BYTES
        invariant
            digest@.len() == 32,
            0 <= i <= ID_BYTES,
            head@ == digest@.subrange(0, i as int),
        decreases ID_BYTES - i,
    {
        head.push(digest[i]);
        assert(digest@.subrange(0, i + 1) == digest@.subrange(0, i as int).push(digest@[i as int]));
        i = i + 1;
    }
    let digits = decimal_of_be(head.as_slice());
    let n = digits.as_str().unicode_len();
    if n >= ID_WIDTH {
        return digits;
    }
    let mut out = String::new();
    let mut k: usize = 0;
    while k < ID_WIDTH - n
        invariant
            n < ID_WIDTH,
            0 <= k <= ID_WIDTH - n,
            out@ =~= Seq::new(k as nat, |j: int| '0'),
        decreases ID_WIDTH - n - k,
    {
        proof {
            reveal_strlit("0");
        }
        out.append("0");
        assert(out@ =~= Seq::new((k + 1) as nat, |j: int| '0'));
        k = k + 1;
    }
    out.append(digits.as_str());
    out
}

/// The database handle: the directory that holds the tables.
#[derive(Debug)]
pub struct DATABASE {
    pub path: String,
}

impl DATABASE {
    /// The numeric id of an identifying text.
    pub fn string_to_numerical_uuid(input: &str) -> (r: String)
        ensures
            r@ == numeric_id(input@),
    {
        string_to_numerical_uuid(input)
    }

    /// The first and last ids of the shard that owns `id`.
    pub fn get_shard_range(id: &str) -> (r: (String, String))
        ensures
            r.0@ == shard_bounds(id@).0,
            r.1@ == shard_bounds(id@).1,
    {
        let n = id.unicode_len();
        let cut: usize = if n >= OFFSET_DIGITS {
            n - OFFSET_DIGITS
        } else {
            0
        };
        let prefix = id.substring_char(0, cut);
        let start = prefix.to_owned().concat("0000000");
        let end = prefix.to_owned().concat("9999999");
        proof {
            if n < OFFSET_DIGITS {
                assert(prefix@ =~= Seq::<char>::empty());
            }
        }
        (start, end)
    }

    /// The name of the shard file that owns `id`.
    pub fn get_file_by_id(id: String) -> (r: String)
        ensures
            r@ == shard_file(id@),
    {
        let (start, end) = Self::get_shard_range(id.as_str());
        start.concat("-").concat(end.as_str())
    }
}

} // verus!
