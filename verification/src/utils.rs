//! Content hashes, big-endian conversions, bit packing and the protocol
//! constants shared by every other module.

use vstd::prelude::*;
use rustc_serialize::hex::ToHex;

verus! {

/// Size in bytes of every block but possibly the last one of a piece (2^14).
pub const BLOCK_SIZE: usize = 16384;


/// A 20-byte content hash: a torrent's identity or the digest of one piece.
#[derive(Clone, Copy, Debug, PartialEq, Eq)]
pub struct Hash(pub [u8; 20]);

impl View for Hash {
    type V = Seq<u8>;

    open spec fn view(&self) -> Seq<u8> {
        self.0@
    }
}

/// The peer id this client announces in handshakes and tracker requests.
pub open spec fn my_peer_id_bytes() -> Seq<u8> {
    seq![
        0x33u8, 0x31u8, 0x34u8, 0x31u8, 0x35u8, 0x39u8, 0x32u8, 0x36u8, 0x35u8, 0x33u8,
        0x35u8, 0x38u8, 0x39u8, 0x37u8, 0x39u8, 0x33u8, 0x32u8, 0x33u8, 0x38u8, 0x35u8,
    ]
}

/// The value of the four bytes `b` read as an unsigned big-endian number.
pub open spec fn be_value32(b: Seq<u8>) -> int {
    b[0] as int * 0x1000000 + b[1] as int * 0x10000 + b[2] as int * 0x100 + b[3] as int
}

/// The four big-endian bytes of `x`.
pub open spec fn be_bytes32(x: u32) -> Seq<u8> {
    seq![
        (x as int / 0x1000000) as u8,
        (x as int / 0x10000 % 0x100) as u8,
        (x as int / 0x100 % 0x100) as u8,
        (x as int % 0x100) as u8,
    ]
}

/// The value of the eight bytes `b` read as an unsigned big-endian number.
pub open spec fn be_value64(b: Seq<u8>) -> int {
    be_value32(b.subrange(0, 4)) * 0x1_0000_0000 + be_value32(b.subrange(4, 8))
}

/// The eight big-endian bytes of `x`.
pub open spec fn be_bytes64(x: u64) -> Seq<u8> {
    be_bytes32((x as int / 0x1_0000_0000) as u32) + be_bytes32((x as int % 0x1_0000_0000) as u32)
}

/// Big-endian wire form of a `u32`.
pub fn u32_to_byte_slice(input: u32) -> (out: Vec<u8>)
    ensures
        out@ == be_bytes32(input),
{
    let mut out: Vec<u8> = Vec::new();
    out.push((input / 0x1000000) as u8);
    out.push((input / 0x10000 % 0x100) as u8);
    out.push((input / 0x100 % 0x100) as u8);
    out.push((input % 0x100) as u8);
    assert(out@ =~= be_bytes32(input));
    out
}

/// Big-endian wire form of a `u64`.
pub fn u64_to_byte_slice(input: u64) -> (out: Vec<u8>)
    ensures
        out@ == be_bytes64(input),
{
    let mut out = u32_to_byte_slice((input / 0x1_0000_0000) as u32);
    let mut low = u32_to_byte_slice((input % 0x1_0000_0000) as u32);
    out.append(&mut low);
    out
}

/// Reads four big-endian bytes.
pub fn byte_slice_to_u32(input: &[u8]) -> (value: u32)
    requires
        input@.len() == 4,
    ensures
        value as int == be_value32(input@),
{
    (input[0] as u32) * 0x1000000 + (input[1] as u32) * 0x10000 + (input[2] as u32) * 0x100
        + (input[3] as u32)
}

/// Reads eight big-endian bytes.
pub fn byte_slice_to_u64(input: &[u8]) -> (value: u64)
    requires
        input@.len() == 8,
    ensures
        value as int == be_value64(input@),
{
    let high: u64 = (input[0] as u64) * 0x1000000 + (input[1] as u64) * 0x10000 + (input[2] as u64)
        * 0x100 + (input[3] as u64);
    let low: u64 = (input[4] as u64) * 0x1000000 + (input[5] as u64) * 0x10000 + (input[6] as u64)
        * 0x100 + (input[7] as u64);
    assert(input@.subrange(0, 4)[0] == input@[0]);
    assert(input@.subrange(4, 8)[0] == input@[4]);
    high * 0x1_0000_0000 + low
}

/// Writing a `u32` big-endian and reading it back gives the number again.
pub proof fn lemma_be32_round_trip(x: u32)
    ensures
        be_bytes32(x).len() == 4,
        be_value32(be_bytes32(x)) == x,
{
}

/// Reading four bytes big-endian and writing the value back gives the bytes again.
pub proof fn lemma_be32_bytes_round_trip(b: Seq<u8>)
    requires
        b.len() == 4,
    ensures
        0 <= be_value32(b) <= u32::MAX,
        be_bytes32(be_value32(b) as u32) == b,
{
    let (b0, b1, b2, b3) = (b[0] as int, b[1] as int, b[2] as int, b[3] as int);
    let v = be_value32(b);
    assert(v == b0 * 0x1000000 + (b1 * 0x10000 + b2 * 0x100 + b3));
    assert(v / 0x1000000 == b0);
    let v1 = v / 0x10000;
    assert(v1 == b0 * 0x100 + b1);
    assert(v1 % 0x100 == b1);
    let v2 = v / 0x100;
    assert(v2 == b0 * 0x10000 + b1 * 0x100 + b2);
    assert(v2 % 0x100 == b2);
    assert(v % 0x100 == b3);
    assert(be_bytes32(v as u32) =~= b);
}

/// Writing a `u64` big-endian and reading it back gives the number again.
pub proof fn lemma_be64_round_trip(x: u64)
    ensures
        be_bytes64(x).len() == 8,
        be_value64(be_bytes64(x)) == x,
{
    let hi = (x as int / 0x1_0000_0000) as u32;
    let lo = (x as int % 0x1_0000_0000) as u32;
    lemma_be32_round_trip(hi);
    lemma_be32_round_trip(lo);
    assert(be_bytes64(x).subrange(0, 4) =~= be_bytes32(hi));
    assert(be_bytes64(x).subrange(4, 8) =~= be_bytes32(lo));
}


impl Default for Hash {
    fn default() -> (h: Hash)
        ensures
            h@ == Seq::new(20, |i: int| 0u8),
    {
        let h = Hash([0u8; 20]);
        assert(h@ =~= Seq::new(20, |i: int| 0u8));
        h
    }
}

/// The ASCII code of the lowercase hexadecimal digit for `n`, where `0 <= n < 16`.
pub open spec fn hex_digit(n: int) -> u8 {
    if n < 10 {
        (0x30 + n) as u8
    } else {
        (0x61 + n - 10) as u8
    }
}

/// Two lowercase hexadecimal digits per byte, as ASCII codes.
pub open spec fn hex_digits(bytes: Seq<u8>) -> Seq<u8> {
    Seq::new(
        2 * bytes.len(),
        |i: int|
            if i % 2 == 0 {
                hex_digit(bytes[i / 2] as int / 16)
            } else {
                hex_digit(bytes[i / 2] as int % 16)
            },
    )
}

/// A percent sign and two lowercase hexadecimal digits per byte, as ASCII codes.
pub open spec fn percent_encoded(bytes: Seq<u8>) -> Seq<u8> {
    Seq::new(
        3 * bytes.len(),
        |i: int|
            if i % 3 == 0 {
                0x25u8
            } else if i % 3 == 1 {
                hex_digit(bytes[i / 3] as int / 16)
            } else {
                hex_digit(bytes[i / 3] as int % 16)
            },
    )
}

/// The characters whose codes are the given ASCII bytes.
pub open spec fn ascii_chars(bytes: Seq<u8>) -> Seq<char> {
    Seq::new(bytes.len(), |i: int| bytes[i] as char)
}

/// True when every byte is below 128.
pub open spec fn all_ascii(bytes: Seq<u8>) -> bool {
    forall|i: int| 0 <= i < bytes.len() ==> bytes[i] < 128
}

/// Calls `rustc_serialize::hex::ToHex::to_hex` on a byte slice. That function
/// emits, for each byte in order, the digit of its high nibble and then the
/// digit of its low nibble, taken from `0123456789abcdef`; the contract states
/// exactly this, as ASCII codes.
#[verifier::external_body]
fn hex_encode(bytes: &[u8]) -> (out: Vec<u8>)
    ensures
        out@ == hex_digits(bytes@),
{
    bytes.to_hex().into_bytes()
}

/// Names the text that a lossy UTF-8 decoding of a byte sequence yields.
pub uninterp spec fn lossy_text(bytes: Seq<u8>) -> Seq<char>;

/// Calls `String::from_utf8_lossy`. The text depends on the bytes alone. On
/// bytes that are all ASCII the input is valid UTF-8 with one character per
/// byte, so the text holds the characters with the same codes in the same
/// order.
#[verifier::external_body]
pub(crate) fn lossy_string(bytes: &Vec<u8>) -> (text: String)
    ensures
        text@ == lossy_text(bytes@),
        all_ascii(bytes@) ==> text@ == ascii_chars(bytes@),
{
    String::from_utf8_lossy(bytes).into_owned()
}

/// Names the SHA-1 digest of a byte sequence.
pub uninterp spec fn sha1_digest(data: Seq<u8>) -> Seq<u8>;

/// Feeds `data` to `sha1::Sha1` (`new`, `update`, `digest`) and returns
/// `Digest::bytes`. The digest depends on the data alone and is an array of
/// twenty bytes; nothing else is claimed of it.
#[verifier::external_body]
pub fn sha1(data: &Vec<u8>) -> (digest: Vec<u8>)
    ensures
        digest@ == sha1_digest(data@),
        digest@.len() == 20,
{
    let mut m = ::sha1::Sha1::new();
    m.update(&data[..]);
    m.digest().bytes().to_vec()
}

impl Hash {
    /// Builds a hash from exactly twenty bytes.
    pub fn from_slice(h: &[u8]) -> (hash: Hash)
        requires
            h@.len() == 20,
        ensures
            hash@ == h@,
    {
        let mut bhash: [u8; 20] = [0u8; 20];
        let mut i: usize = 0;
        while i < 20
            invariant
                i <= 20,
                h@.len() == 20,
                forall|k: int| 0 <= k < i ==> bhash@[k] == h@[k],
            decreases 20 - i,
        {
            bhash[i] = h[i];
            i += 1;
        }
        let hash = Hash(bhash);
        assert(hash@ =~= h@);
        hash
    }

    /// Builds a hash from a vector of exactly twenty bytes.
    pub fn from_vec(h: &Vec<u8>) -> (hash: Hash)
        requires
            h@.len() == 20,
        ensures
            hash@ == h@,
    {
        Hash::from_slice(h.as_slice())
    }

    /// Builds a hash when `h` has twenty bytes, and nothing otherwise.
    pub fn try_from_slice(h: &[u8]) -> (hash: Option<Hash>)
        ensures
            hash is Some <==> h@.len() == 20,
            hash matches Some(x) ==> x@ == h@,
    {
        if h.len() == 20 {
            Some(Hash::from_slice(h))
        } else {
            None
        }
    }

    /// The bytes of the hash.
    pub fn to_vec(&self) -> (out: Vec<u8>)
        ensures
            out@ == self@,
    {
        let mut out: Vec<u8> = Vec::new();
        let mut i: usize = 0;
        while i < 20
            invariant
                i <= 20,
                out@.len() == i,
                forall|k: int| 0 <= k < i ==> out@[k] == self.0@[k],
            decreases 20 - i,
        {
            out.push(self.0[i]);
            i += 1;
        }
        assert(out@ =~= self@);
        out
    }

    /// Bytewise equality.
    pub fn same_as(&self, other: &Hash) -> (same: bool)
        ensures
            same == (self@ == other@),
    {
        let mut i: usize = 0;
        while i < 20
            invariant
                i <= 20,
                forall|k: int| 0 <= k < i ==> self.0@[k] == other.0@[k],
            decreases 20 - i,
        {
            if self.0[i] != other.0[i] {
                return false;
            }
            i += 1;
        }
        assert(self@ =~= other@);
        true
    }

    /// The percent-encoded form used in tracker queries: `%XX` for each byte.
    pub fn url_encoded(&self) -> (text: String)
        ensures
            text@ == ascii_chars(percent_encoded(self@)),
    {
        let hex = hex_encode(self.0.as_slice());
        let mut out: Vec<u8> = Vec::new();
        let mut i: usize = 0;
        while i < 20
            invariant
                i <= 20,
                hex@ == hex_digits(self@),
                out@.len() == 3 * i,
                forall|k: int| 0 <= k < 3 * i ==> out@[k] == percent_encoded(self@)[k],
            decreases 20 - i,
        {
            out.push(0x25u8);
            out.push(hex[2 * i]);
            out.push(hex[2 * i + 1]);
            i += 1;
        }
        assert(out@ =~= percent_encoded(self@));
        lossy_string(&out)
    }

    /// Forty lowercase hexadecimal digits.
    pub fn to_hex(&self) -> (text: String)
        ensures
            text@ == ascii_chars(hex_digits(self@)),
    {
        let hex = hex_encode(self.0.as_slice());
        lossy_string(&hex)
    }
}

/// The peer id this client announces in handshakes and tracker requests.
pub fn my_peer_id() -> (id: Hash)
    ensures
        id@ == my_peer_id_bytes(),
{
    let id = Hash(
        [
            0x33u8, 0x31u8, 0x34u8, 0x31u8, 0x35u8, 0x39u8, 0x32u8, 0x36u8, 0x35u8, 0x33u8,
            0x35u8, 0x38u8, 0x39u8, 0x37u8, 0x39u8, 0x33u8, 0x32u8, 0x33u8, 0x38u8, 0x35u8,
        ],
    );
    assert(id@ =~= my_peer_id_bytes());
    id
}


/// The weight of bit `j` of a byte, counting from the most significant bit.
pub open spec fn bit_weight(j: int) -> int {
    if j == 0 {
        128
    } else if j == 1 {
        64
    } else if j == 2 {
        32
    } else if j == 3 {
        16
    } else if j == 4 {
        8
    } else if j == 5 {
        4
    } else if j == 6 {
        2
    } else {
        1
    }
}

/// Bit `j` of `byte`, counting from the most significant bit, as 0 or 1.
pub open spec fn bit_of(byte: u8, j: int) -> u8 {
    (byte as int / bit_weight(j) % 2) as u8
}

/// One entry per bit, most significant bit of each byte first.
pub open spec fn bits_of(bytes: Seq<u8>) -> Seq<u8> {
    Seq::new(8 * bytes.len(), |i: int| bit_of(bytes[i / 8], i % 8))
}

/// 1 when entry `i` exists and is not zero, else 0.
pub open spec fn bit_set(bits: Seq<u8>, i: int) -> int {
    if 0 <= i < bits.len() && bits[i] != 0 {
        1
    } else {
        0
    }
}

/// The byte that packs entries `8k .. 8k + 8`, the first entry in the most
/// significant bit; entries past the end count as zero.
pub open spec fn byte_of_bits(bits: Seq<u8>, k: int) -> u8 {
    (bit_set(bits, 8 * k) * 128 + bit_set(bits, 8 * k + 1) * 64 + bit_set(bits, 8 * k + 2) * 32
        + bit_set(bits, 8 * k + 3) * 16 + bit_set(bits, 8 * k + 4) * 8 + bit_set(bits, 8 * k + 5)
        * 4 + bit_set(bits, 8 * k + 6) * 2 + bit_set(bits, 8 * k + 7)) as u8
}

/// Number of bytes that hold `n` bits.
pub open spec fn packed_len(n: int) -> int {
    (n + 7) / 8
}

/// The bits packed into bytes, padded with zero bits to a whole byte.
pub open spec fn bytes_of_bits(bits: Seq<u8>) -> Seq<u8> {
    Seq::new(packed_len(bits.len() as int) as nat, |k: int| byte_of_bits(bits, k))
}

/// `bits` followed by zeros up to the next multiple of eight.
pub open spec fn padded_bits(bits: Seq<u8>) -> Seq<u8> {
    Seq::new(
        (8 * packed_len(bits.len() as int)) as nat,
        |i: int|
            if i < bits.len() {
                bits[i]
            } else {
                0u8
            },
    )
}

/// Unpacks bytes into bits, most significant bit first, each as 0 or 1.
pub fn to_bits(list: &[u8]) -> (bits: Vec<u8>)
    requires
        8 * list@.len() <= usize::MAX,
    ensures
        bits@ == bits_of(list@),
{
    let mut bits: Vec<u8> = Vec::new();
    let mut i: usize = 0;
    while i < list.len()
        invariant
            i <= list@.len(),
            bits@.len() == 8 * i,
            forall|k: int| 0 <= k < 8 * i ==> bits@[k] == bit_of(list@[k / 8], k % 8),
        decreases list@.len() - i,
    {
        let n: u8 = list[i];
        bits.push(n / 128 % 2);
        bits.push(n / 64 % 2);
        bits.push(n / 32 % 2);
        bits.push(n / 16 % 2);
        bits.push(n / 8 % 2);
        bits.push(n / 4 % 2);
        bits.push(n / 2 % 2);
        bits.push(n % 2);
        i += 1;
    }
    assert(bits@ =~= bits_of(list@));
    bits
}

fn bit_at(bits: &[u8], base: usize, j: usize) -> (b: u8)
    requires
        base <= bits@.len(),
    ensures
        b as int == bit_set(bits@, base + j),
{
    if j < bits.len() - base && bits[base + j] != 0 {
        1
    } else {
        0
    }
}

/// Packs bits into bytes, the first bit in the most significant position. An
/// entry counts as set when it is not zero; the last byte is padded with zeros.
pub fn from_bits(bits: &[u8]) -> (bytes: Vec<u8>)
    ensures
        bytes@ == bytes_of_bits(bits@),
{
    let n: usize = bits.len() / 8 + (if bits.len() % 8 == 0 {
        0
    } else {
        1
    });
    assert(n == packed_len(bits@.len() as int));
    let mut bytes: Vec<u8> = Vec::new();
    let mut k: usize = 0;
    while k < n
        invariant
            k <= n,
            n == packed_len(bits@.len() as int),
            bits@.len() <= usize::MAX,
            bytes@.len() == k,
            forall|j: int| 0 <= j < k ==> bytes@[j] == byte_of_bits(bits@, j),
        decreases n - k,
    {
        assert(8 * k <= bits@.len());
        let base: usize = 8 * k;
        let byte: u8 = bit_at(bits, base, 0) * 128 + bit_at(bits, base, 1) * 64 + bit_at(
            bits,
            base,
            2,
        ) * 32 + bit_at(bits, base, 3) * 16 + bit_at(bits, base, 4) * 8 + bit_at(bits, base, 5)
            * 4 + bit_at(bits, base, 6) * 2 + bit_at(bits, base, 7);
        bytes.push(byte);
        k += 1;
    }
    assert(bytes@ =~= bytes_of_bits(bits@));
    bytes
}

proof fn lemma_byte_bits(b: u8)
    ensures
        bit_of(b, 0) * 128 + bit_of(b, 1) * 64 + bit_of(b, 2) * 32 + bit_of(b, 3) * 16 + bit_of(
            b,
            4,
        ) * 8 + bit_of(b, 5) * 4 + bit_of(b, 6) * 2 + bit_of(b, 7) == b,
        forall|j: int| 0 <= j < 8 ==> bit_of(b, j) <= 1,
{
    let n = b as int;
    let (q1, q2, q3, q4, q5, q6, q7) = (n / 2, n / 4, n / 8, n / 16, n / 32, n / 64, n / 128);
    assert(n == 2 * q1 + n % 2);
    assert(q1 == 2 * q2 + q1 % 2);
    assert(q2 == 2 * q3 + q2 % 2);
    assert(q3 == 2 * q4 + q3 % 2);
    assert(q4 == 2 * q5 + q4 % 2);
    assert(q5 == 2 * q6 + q5 % 2);
    assert(q6 == 2 * q7 + q6 % 2);
    assert(q7 % 2 == q7);
    assert(bit_of(b, 0) == q7 % 2);
    assert(bit_of(b, 1) == q6 % 2);
    assert(bit_of(b, 2) == q5 % 2);
    assert(bit_of(b, 3) == q4 % 2);
    assert(bit_of(b, 4) == q3 % 2);
    assert(bit_of(b, 5) == q2 % 2);
    assert(bit_of(b, 6) == q1 % 2);
    assert(bit_of(b, 7) == n % 2);
}

/// Packing the bits of a byte sequence gives the bytes again.
pub proof fn lemma_pack_unpack(bytes: Seq<u8>)
    ensures
        bytes_of_bits(bits_of(bytes)) == bytes,
{
    let bits = bits_of(bytes);
    assert forall|k: int| 0 <= k < bytes.len() implies byte_of_bits(bits, k) == bytes[k] by {
        lemma_byte_bits(bytes[k]);
        assert forall|j: int| 0 <= j < 8 implies bit_set(bits, 8 * k + j) == #[trigger] bit_of(
            bytes[k],
            j,
        ) by {
            assert((8 * k + j) / 8 == k);
            assert((8 * k + j) % 8 == j);
        }
        assert(bit_set(bits, 8 * k) == bit_of(bytes[k], 0));
    }
    assert(bytes_of_bits(bits) =~= bytes);
}

/// Unpacking packed bits gives the bits again, padded with zeros to a whole
/// byte, provided each bit is 0 or 1.
pub proof fn lemma_unpack_pack(bits: Seq<u8>)
    requires
        forall|i: int| 0 <= i < bits.len() ==> bits[i] <= 1,
    ensures
        bits_of(bytes_of_bits(bits)) == padded_bits(bits),
{
    let bytes = bytes_of_bits(bits);
    let back = bits_of(bytes);
    let padded = padded_bits(bits);
    assert(back.len() == padded.len());
    assert forall|i: int| 0 <= i < back.len() implies back[i] == padded[i] by {
        let k = i / 8;
        let j = i % 8;
        assert(i == 8 * k + j);
        let (s0, s1, s2, s3) = (
            bit_set(bits, 8 * k),
            bit_set(bits, 8 * k + 1),
            bit_set(bits, 8 * k + 2),
            bit_set(bits, 8 * k + 3),
        );
        let (s4, s5, s6, s7) = (
            bit_set(bits, 8 * k + 4),
            bit_set(bits, 8 * k + 5),
            bit_set(bits, 8 * k + 6),
            bit_set(bits, 8 * k + 7),
        );
        let v = s0 * 128 + s1 * 64 + s2 * 32 + s3 * 16 + s4 * 8 + s5 * 4 + s6 * 2 + s7;
        assert(bytes[k] as int == v);
        assert(v / 128 % 2 == s0);
        assert(v / 64 % 2 == s1);
        assert(v / 32 % 2 == s2);
        assert(v / 16 % 2 == s3);
        assert(v / 8 % 2 == s4);
        assert(v / 4 % 2 == s5);
        assert(v / 2 % 2 == s6);
        assert(v % 2 == s7);
        assert(back[i] as int == bit_set(bits, i));
    }
    assert(back =~= padded);
}

/// A row of `n` flags that are all `flag`.
pub open spec fn all_flags(n: int, flag: bool) -> Seq<bool> {
    Seq::new(n as nat, |i: int| flag)
}

/// A row of `n` flags that are all `flag`.
pub fn make_flags(n: usize, flag: bool) -> (flags: Vec<bool>)
    ensures
        flags@ == all_flags(n as int, flag),
{
    let mut flags: Vec<bool> = Vec::new();
    let mut i: usize = 0;
    while i < n
        invariant
            i <= n,
            flags@.len() == i,
            forall|k: int| 0 <= k < i ==> flags@[k] == flag,
        decreases n - i,
    {
        flags.push(flag);
        i += 1;
    }
    assert(flags@ =~= all_flags(n as int, flag));
    flags
}

} // verus!
