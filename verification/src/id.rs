use vstd::prelude::*;
use vstd::std_specs::bits::{u8_leading_zeros, axiom_u8_leading_zeros};
use vstd::std_specs::cmp::PartialEqSpecImpl;
use rand::Rng;
use sha1::{Digest, Sha1};

verus! {

broadcast use vstd::array::group_array_axioms;

/// Number of bytes in an identifier.
pub const ID_BYTES: usize = 20;

/// Number of bits in an identifier.
pub const ID_BITS: usize = 160;

/// 160-bit identifier of a node or of a key stored in the table.
#[derive(Clone, Copy, Debug, Eq, Hash, PartialOrd, Ord)]
pub struct Id {
    pub id: [u8; 20],
}

/// Bit `j` of a big-endian bit string, counted from the most significant
/// bit of byte 0.
pub open spec fn bit_at(s: Seq<u8>, j: int) -> bool {
    (s[j / 8] >> ((7 - j % 8) as u8)) & 1u8 == 1u8
}

/// `n` is the number of leading zero bits of the big-endian bit string `s`.
pub open spec fn is_leading_zero_count(s: Seq<u8>, n: int) -> bool {
    &&& 0 <= n <= 8 * s.len()
    &&& forall|j: int| 0 <= j < n ==> !#[trigger] bit_at(s, j)
    &&& n < 8 * s.len() ==> bit_at(s, n)
}

/// Byte-wise exclusive or of two byte strings of equal length.
pub open spec fn xor_seq(a: Seq<u8>, b: Seq<u8>) -> Seq<u8> {
    Seq::new(a.len(), |i: int| a[i] ^ b[i])
}

/// The all-zero byte string of length `n`.
pub open spec fn zero_seq(n: nat) -> Seq<u8> {
    Seq::new(n, |i: int| 0u8)
}

impl Id {
    /// The XOR metric: the bitwise exclusive or of the two identifiers.
    pub fn distance(&self, other: Id) -> (r: Id)
        ensures
            r.id@ == xor_seq(self.id@, other.id@),
    {
        let mut result = [0u8; 20];
        let mut i: usize = 0;
        while i < 20
            invariant
                i <= 20,
                forall|j: int| 0 <= j < i ==> result@[j] == self.id@[j] ^ other.id@[j],
            decreases 20 - i,
        {
            result[i] = self.id[i] ^ other.id[i];
            i = i + 1;
        }
        assert(result@ =~= xor_seq(self.id@, other.id@));
        Id { id: result }
    }

    /// Number of leading zero bits of the identifier, read as a 160-bit
    /// big-endian number; 160 for the all-zero identifier.
    pub fn leading_zeros(&self) -> (r: u32)
        ensures
            is_leading_zero_count(self.id@, r as int),
    {
        let mut i: usize = 0;
        while i < 20
            invariant
                i <= 20,
                forall|j: int| 0 <= j < i ==> self.id@[j] == 0u8,
            decreases 20 - i,
        {
            let byte = self.id[i];
            if byte != 0 {
                let lz = byte.leading_zeros();
                proof {
                    lemma_count_in_byte(self.id@, i as int, lz as int);
                }
                return (i as u32) * 8 + lz;
            }
            i = i + 1;
        }
        proof {
            assert forall|j: int| 0 <= j < 160 implies !#[trigger] bit_at(self.id@, j) by {
                lemma_zero_byte_bits(self.id@[j / 8], (7 - j % 8) as u8);
            }
        }
        160
    }
}

proof fn lemma_zero_byte_bits(b: u8, k: u8)
    requires
        b == 0,
    ensures
        (b >> k) & 1u8 != 1u8,
{
    assert((0u8 >> k) & 1u8 == 0u8) by (bit_vector);
}

/// Bits of a byte string whose first nonzero byte is at `i`.
proof fn lemma_count_in_byte(s: Seq<u8>, i: int, lz: int)
    requires
        s.len() == 20,
        0 <= i < 20,
        forall|j: int| 0 <= j < i ==> s[j] == 0u8,
        s[i] != 0u8,
        lz == u8_leading_zeros(s[i]),
    ensures
        is_leading_zero_count(s, 8 * i + lz),
{
    let b = s[i];
    axiom_u8_leading_zeros(b);
    assert(0 <= lz < 8);
    assert forall|j: int| 0 <= j < 8 * i + lz implies !#[trigger] bit_at(s, j) by {
        if j < 8 * i {
            assert(j / 8 < i);
            lemma_zero_byte_bits(s[j / 8], (7 - j % 8) as u8);
        } else {
            assert(j / 8 == i);
            assert(j % 8 == j - 8 * i);
            let k = (7 - j % 8) as u8;
            assert(8 - lz <= k < 8);
            assert((b >> k) & 1u8 == 0u8);
        }
    }
    let n = 8 * i + lz;
    assert(n / 8 == i);
    assert(n % 8 == lz);
    let k = (7 - lz) as u8;
    assert((b >> k) & 1u8 != 0u8);
    assert((b >> k) & 1u8 != 0u8 ==> (b >> k) & 1u8 == 1u8) by (bit_vector);
}


/// The number of leading zero bits of a big-endian byte string, computed
/// byte by byte.
pub open spec fn leading_zero_bits(s: Seq<u8>) -> int
    decreases s.len(),
{
    if s.len() == 0 {
        0
    } else if s[0] == 0u8 {
        8 + leading_zero_bits(s.drop_first())
    } else {
        u8_leading_zeros(s[0]) as int
    }
}

proof fn lemma_bit_at_drop_first(s: Seq<u8>, j: int)
    requires
        s.len() > 0,
        0 <= j < 8 * (s.len() - 1),
    ensures
        bit_at(s.drop_first(), j) == bit_at(s, j + 8),
{
    assert((j + 8) / 8 == j / 8 + 1);
    assert((j + 8) % 8 == j % 8);
}

/// `leading_zero_bits` is the leading-zero count.
pub proof fn lemma_leading_zero_bits(s: Seq<u8>)
    ensures
        is_leading_zero_count(s, leading_zero_bits(s)),
    decreases s.len(),
{
    if s.len() == 0 {
    } else if s[0] == 0u8 {
        let t = s.drop_first();
        lemma_leading_zero_bits(t);
        let n = leading_zero_bits(t);
        assert forall|j: int| 0 <= j < 8 + n implies !#[trigger] bit_at(s, j) by {
            if j < 8 {
                lemma_zero_byte_bits(s[j / 8], (7 - j % 8) as u8);
            } else {
                lemma_bit_at_drop_first(s, j - 8);
                assert(!bit_at(t, j - 8));
            }
        }
        if 8 + n < 8 * s.len() {
            lemma_bit_at_drop_first(s, n);
        }
    } else {
        let b = s[0];
        axiom_u8_leading_zeros(b);
        let lz = u8_leading_zeros(b) as int;
        assert forall|j: int| 0 <= j < lz implies !#[trigger] bit_at(s, j) by {
            let k = (7 - j % 8) as u8;
            assert(8 - lz <= k < 8);
            assert((b >> k) & 1u8 == 0u8);
        }
        let k = (7 - lz) as u8;
        assert((b >> k) & 1u8 != 0u8);
        assert((b >> k) & 1u8 != 0u8 ==> (b >> k) & 1u8 == 1u8) by (bit_vector);
    }
}

/// A smaller byte has at least as many leading zero bits.
proof fn lemma_u8_leading_zeros_monotone(x: u8, y: u8)
    requires
        x <= y,
    ensures
        u8_leading_zeros(x) >= u8_leading_zeros(y),
{
    axiom_u8_leading_zeros(x);
    axiom_u8_leading_zeros(y);
    let lx = u8_leading_zeros(x) as u8;
    let ly = u8_leading_zeros(y) as u8;
    if lx < ly {
        assert((x >> ((7 - lx) as u8)) & 1u8 != 0u8);
        assert(y >> ((8 - ly) as u8) == 0u8);
        assert(x >= y) by (bit_vector)
            requires
                lx < ly,
                ly <= 8,
                (x >> ((7 - lx) as u8)) & 1u8 != 0u8,
                y >> ((8 - ly) as u8) == 0u8,
        ;
    }
}

/// Lexicographic order on byte strings of equal length; on identifiers it is
/// the order of the 160-bit numbers they spell, and the order that
/// `#[derive(PartialOrd, Ord)]` gives `Id`.
pub open spec fn bytes_lt(a: Seq<u8>, b: Seq<u8>) -> bool {
    exists|k: int|
        #![trigger a[k], b[k]]
        0 <= k < a.len() && k < b.len() && a[k] < b[k] && (forall|j: int|
            0 <= j < k ==> a[j] == b[j])
}

/// `a` is at most `b` in the lexicographic order.
pub open spec fn bytes_le(a: Seq<u8>, b: Seq<u8>) -> bool {
    a == b || bytes_lt(a, b)
}

/// The lexicographic order is transitive.
pub proof fn lemma_bytes_lt_transitive(a: Seq<u8>, b: Seq<u8>, c: Seq<u8>)
    requires
        a.len() == b.len(),
        b.len() == c.len(),
        bytes_lt(a, b),
        bytes_lt(b, c),
    ensures
        bytes_lt(a, c),
{
    let k1 = choose|k: int|
        #![trigger a[k], b[k]]
        0 <= k < a.len() && k < b.len() && a[k] < b[k] && (forall|j: int|
            0 <= j < k ==> a[j] == b[j]);
    let k2 = choose|k: int|
        #![trigger b[k], c[k]]
        0 <= k < b.len() && k < c.len() && b[k] < c[k] && (forall|j: int|
            0 <= j < k ==> b[j] == c[j]);
    let k = if k1 < k2 { k1 } else { k2 };
    assert(a[k] < c[k]);
    assert(forall|j: int| 0 <= j < k ==> a[j] == c[j]);
}

/// Two different strings of equal length are ordered one way or the other,
/// and never both ways.
pub proof fn lemma_bytes_lt_total(a: Seq<u8>, b: Seq<u8>)
    requires
        a.len() == b.len(),
    ensures
        a != b ==> (bytes_lt(a, b) || bytes_lt(b, a)),
        !(bytes_lt(a, b) && bytes_lt(b, a)),
        bytes_lt(a, b) ==> a != b,
{
    if a != b {
        lemma_first_difference(a, b, 0);
    }
    if bytes_lt(a, b) && bytes_lt(b, a) {
        let k1 = choose|k: int|
            #![trigger a[k], b[k]]
            0 <= k < a.len() && k < b.len() && a[k] < b[k] && (forall|j: int|
                0 <= j < k ==> a[j] == b[j]);
        let k2 = choose|k: int|
            #![trigger b[k], a[k]]
            0 <= k < b.len() && k < a.len() && b[k] < a[k] && (forall|j: int|
                0 <= j < k ==> b[j] == a[j]);
        if k1 < k2 {
            assert(b[k1] == a[k1]);
        } else if k2 < k1 {
            assert(a[k2] == b[k2]);
        }
    }
}

proof fn lemma_first_difference(a: Seq<u8>, b: Seq<u8>, i: int)
    requires
        a.len() == b.len(),
        a != b,
        0 <= i <= a.len(),
        forall|j: int| 0 <= j < i ==> a[j] == b[j],
    ensures
        bytes_lt(a, b) || bytes_lt(b, a),
    decreases a.len() - i,
{
    if i == a.len() {
        assert(a =~= b);
    } else if a[i] == b[i] {
        lemma_first_difference(a, b, i + 1);
    } else if a[i] < b[i] {
        assert(a[i] < b[i] && (forall|j: int| 0 <= j < i ==> a[j] == b[j]));
    } else {
        assert(b[i] < a[i] && (forall|j: int| 0 <= j < i ==> b[j] == a[j]));
    }
}

/// `a` comes strictly before `b` in the lexicographic order.
pub fn bytes_less(a: &[u8; 20], b: &[u8; 20]) -> (r: bool)
    ensures
        r == bytes_lt(a@, b@),
{
    let mut i: usize = 0;
    while i < 20
        invariant
            i <= 20,
            forall|j: int| 0 <= j < i ==> a@[j] == b@[j],
        decreases 20 - i,
    {
        if a[i] != b[i] {
            if a[i] < b[i] {
                assert(a@[i as int] < b@[i as int]);
                return true;
            } else {
                proof {
                    lemma_bytes_lt_total(a@, b@);
                    assert(b@[i as int] < a@[i as int]);
                    assert(bytes_lt(b@, a@));
                }
                return false;
            }
        }
        i = i + 1;
    }
    assert(a@ =~= b@);
    false
}

/// Name for the SHA-1 digest of a byte string, as computed by the `sha1` crate.
pub uninterp spec fn sha1_digest(data: Seq<u8>) -> Seq<u8>;

/// Calls `<sha1::Sha1 as sha1::Digest>::digest` on `data` and returns the
/// 20-byte digest. The contract only ties the result to `data` through the
/// name `sha1_digest`: equal inputs give equal digests.
#[verifier::external_body]
fn sha1_of(data: &[u8]) -> (r: [u8; 20])
    ensures
        r@ == sha1_digest(data@),
{
    Sha1::digest(data).into()
}

/// Calls `rand::Rng::gen` on `rand::thread_rng()` for 20 bytes. The bytes are
/// random, so nothing is stated of them. (`thread_rng` panics only if the
/// operating system refuses to seed the generator.)
#[verifier::external_body]
fn random_id_bytes() -> [u8; 20] {
    rand::thread_rng().gen()
}

/// Calls `rand::Rng::gen` on `rand::thread_rng()` for one `bool`. Nothing is
/// stated of the result: it is random.
#[verifier::external_body]
fn random_bool() -> bool {
    rand::thread_rng().gen::<bool>()
}

impl Id {
    /// A random identifier.
    pub fn generate_id() -> Id {
        Id { id: random_id_bytes() }
    }

    /// A random identifier that falls into bucket `bucket_index` of a node
    /// whose identifier is `node_id`: its first `bucket_index` bits are those
    /// of `node_id`, the next bit is the opposite of `node_id`'s, and the
    /// remaining bits are random.
    pub fn generate_id_in_bucket(node_id: Id, bucket_index: usize) -> (r: Id)
        requires
            bucket_index < 160,
        ensures
            forall|j: int| 0 <= j < bucket_index ==> #[trigger] bit_at(r.id@, j) == bit_at(node_id.id@, j),
            bit_at(r.id@, bucket_index as int) != bit_at(node_id.id@, bucket_index as int),
            is_leading_zero_count(xor_seq(node_id.id@, r.id@), bucket_index as int),
    {
        let mut id = node_id.id;
        update_bit(&mut id, bucket_index, false, true);
        let mut i: usize = bucket_index + 1;
        while i < 160
            invariant
                bucket_index < i <= 160,
                forall|j: int| 0 <= j < bucket_index ==> #[trigger] bit_at(id@, j) == bit_at(node_id.id@, j),
                bit_at(id@, bucket_index as int) != bit_at(node_id.id@, bucket_index as int),
            decreases 160 - i,
        {
            let v = random_bool();
            update_bit(&mut id, i, v, false);
            i = i + 1;
        }
        proof {
            lemma_xor_leading_zeros_at_first_difference(node_id.id@, id@, bucket_index as int);
        }
        Id { id }
    }

    /// The identifier of a value: the SHA-1 digest of its bytes.
    pub fn hash_value(value: Vec<u8>) -> (r: Id)
        ensures
            r.id@ == sha1_digest(value@),
    {
        Id { id: sha1_of(value.as_slice()) }
    }
}

/// `String::push` appends one character.
pub assume_specification[ String::push ](s: &mut String, ch: char)
    ensures
        final(s)@ == old(s)@.push(ch),
;

/// The lower-case hexadecimal digit of `n` (below 16).
pub open spec fn hex_digit(n: u8) -> char {
    if n < 10 {
        (48 + n) as char
    } else {
        (87 + n) as char
    }
}

/// Lower-case hexadecimal spelling of a byte string, two digits a byte.
pub open spec fn hex_of(s: Seq<u8>) -> Seq<char>
    decreases s.len(),
{
    if s.len() == 0 {
        Seq::empty()
    } else {
        hex_of(s.drop_last()).push(hex_digit(s.last() / 16)).push(hex_digit(s.last() % 16))
    }
}

fn hex_char(n: u8) -> (c: char)
    requires
        n < 16,
    ensures
        c == hex_digit(n),
{
    if n < 10 {
        (48 + n) as char
    } else {
        (87 + n) as char
    }
}

impl Id {
    /// The identifier in lower-case hexadecimal, 40 digits.
    pub fn to_hex(&self) -> (r: String)
        ensures
            r@ == hex_of(self.id@),
    {
        let mut r = String::new();
        let mut i: usize = 0;
        assert(self.id@.take(0) =~= Seq::<u8>::empty());
        while i < 20
            invariant
                i <= 20,
                r@ == hex_of(self.id@.take(i as int)),
            decreases 20 - i,
        {
            let b = self.id[i];
            r.push(hex_char(b / 16));
            r.push(hex_char(b % 16));
            proof {
                let t = self.id@.take(i + 1);
                assert(t.drop_last() =~= self.id@.take(i as int));
                assert(t.last() == b);
            }
            i = i + 1;
        }
        assert(self.id@.take(20) =~= self.id@);
        r
    }
}

/// Hashing is deterministic: two identifiers computed by `hash_value` from
/// equal values are equal.
pub proof fn law_hash_value_deterministic(v: Seq<u8>, w: Seq<u8>, a: Id, b: Id)
    requires
        a.id@ == sha1_digest(v),
        b.id@ == sha1_digest(w),
        v == w,
    ensures
        a == b,
{
    assert(a.id =~= b.id);
}

proof fn lemma_byte_xor_facts(x: u8, y: u8, z: u8)
    ensures
        x ^ x == 0u8,
        x ^ y == y ^ x,
        (x ^ y) ^ (y ^ z) == x ^ z,
        x ^ (x ^ y) == y,
        x ^ y == 0u8 ==> x == y,
{
    assert(x ^ x == 0u8) by (bit_vector);
    assert(x ^ y == y ^ x) by (bit_vector);
    assert((x ^ y) ^ (y ^ z) == x ^ z) by (bit_vector);
    assert(x ^ (x ^ y) == y) by (bit_vector);
    assert(x ^ y == 0u8 ==> x == y) by (bit_vector);
}

/// The distance from an identifier to itself is zero.
pub proof fn law_distance_to_self_is_zero(a: Id)
    ensures
        xor_seq(a.id@, a.id@) == zero_seq(20),
{
    assert forall|i: int| 0 <= i < 20 implies xor_seq(a.id@, a.id@)[i] == zero_seq(20)[i] by {
        lemma_byte_xor_facts(a.id@[i], a.id@[i], a.id@[i]);
    }
    assert(xor_seq(a.id@, a.id@) =~= zero_seq(20));
}

/// The distance is symmetric.
pub proof fn law_distance_symmetric(a: Id, b: Id)
    ensures
        xor_seq(a.id@, b.id@) == xor_seq(b.id@, a.id@),
{
    assert forall|i: int| 0 <= i < 20 implies xor_seq(a.id@, b.id@)[i] == xor_seq(b.id@, a.id@)[i] by {
        lemma_byte_xor_facts(a.id@[i], b.id@[i], a.id@[i]);
    }
    assert(xor_seq(a.id@, b.id@) =~= xor_seq(b.id@, a.id@));
}

/// The distance is zero exactly between equal identifiers.
pub proof fn law_distance_zero_iff_equal(a: Id, b: Id)
    ensures
        (xor_seq(a.id@, b.id@) == zero_seq(20)) <==> a == b,
{
    if xor_seq(a.id@, b.id@) == zero_seq(20) {
        assert forall|i: int| 0 <= i < 20 implies a.id@[i] == b.id@[i] by {
            assert(xor_seq(a.id@, b.id@)[i] == 0u8);
            lemma_byte_xor_facts(a.id@[i], b.id@[i], a.id@[i]);
        }
        assert(a.id@ =~= b.id@);
        assert(a.id =~= b.id);
    }
    if a == b {
        law_distance_to_self_is_zero(a);
    }
}

/// Distances compose: the distance between `d(a, b)` and `d(b, c)` is
/// `d(a, c)`. In particular `d(a, c) <= d(d(a, b), d(b, c))` holds with
/// equality.
pub proof fn law_distance_composes(a: Id, b: Id, c: Id)
    ensures
        xor_seq(xor_seq(a.id@, b.id@), xor_seq(b.id@, c.id@)) == xor_seq(a.id@, c.id@),
{
    assert forall|i: int| 0 <= i < 20 implies xor_seq(xor_seq(a.id@, b.id@), xor_seq(b.id@, c.id@))[i]
        == xor_seq(a.id@, c.id@)[i] by {
        lemma_byte_xor_facts(a.id@[i], b.id@[i], c.id@[i]);
    }
    assert(xor_seq(xor_seq(a.id@, b.id@), xor_seq(b.id@, c.id@)) =~= xor_seq(a.id@, c.id@));
}

/// Unidirectionality: from `a`, exactly one identifier lies at a given
/// distance; the one at distance `d(a, b)` is `b`.
pub proof fn law_distance_unidirectional(a: Id, b: Id)
    ensures
        xor_seq(a.id@, xor_seq(a.id@, b.id@)) == b.id@,
{
    assert forall|i: int| 0 <= i < 20 implies xor_seq(a.id@, xor_seq(a.id@, b.id@))[i] == b.id@[i] by {
        lemma_byte_xor_facts(a.id@[i], b.id@[i], b.id@[i]);
    }
    assert(xor_seq(a.id@, xor_seq(a.id@, b.id@)) =~= b.id@);
}

/// An identifier has 160 leading zeros exactly when it is all zero.
pub proof fn law_leading_zeros_all_zero(s: Seq<u8>)
    requires
        s.len() == 20,
    ensures
        is_leading_zero_count(s, 160) <==> s == zero_seq(20),
{
    if is_leading_zero_count(s, 160) {
        assert forall|i: int| 0 <= i < 20 implies s[i] == 0u8 by {
            let b = s[i];
            assert forall|k: u8| k < 8 implies !byte_bit(b, k) by {
                let j = 8 * i + (7 - k);
                assert(j / 8 == i);
                assert(j % 8 == 7 - k);
                assert(!bit_at(s, j));
            }
            lemma_byte_with_no_bits_is_zero(b);
        }
        assert(s =~= zero_seq(20));
    }
    if s == zero_seq(20) {
        assert forall|j: int| 0 <= j < 160 implies !#[trigger] bit_at(s, j) by {
            lemma_zero_byte_bits(s[j / 8], (7 - j % 8) as u8);
        }
    }
}

/// The byte-wise leading-zero count can only drop as a byte string grows
/// in the lexicographic order.
proof fn lemma_leading_zero_bits_antitone(a: Seq<u8>, b: Seq<u8>)
    requires
        a.len() == b.len(),
        bytes_le(a, b),
    ensures
        leading_zero_bits(a) >= leading_zero_bits(b),
    decreases a.len(),
{
    if a.len() > 0 && a != b {
        let k = choose|k: int|
            #![trigger a[k], b[k]]
            0 <= k < a.len() && k < b.len() && a[k] < b[k] && (forall|j: int| 0 <= j < k ==> a[j] == b[j]);
        if k == 0 {
            axiom_u8_leading_zeros(b[0]);
            if a[0] == 0u8 {
                lemma_leading_zero_bits(a.drop_first());
            } else {
                lemma_u8_leading_zeros_monotone(a[0], b[0]);
            }
        } else {
            assert(a[0] == b[0]);
            if a[0] == 0u8 {
                let a1 = a.drop_first();
                let b1 = b.drop_first();
                assert(a1[k - 1] == a[k] && b1[k - 1] == b[k]);
                assert(forall|j: int| 0 <= j < k - 1 ==> a1[j] == a[j + 1] && b1[j] == b[j + 1]);
                assert(bytes_lt(a1, b1));
                lemma_leading_zero_bits_antitone(a1, b1);
            }
        }
    }
}

/// Read as 160-bit numbers, a larger identifier has no more leading zero
/// bits: `a <= b` implies `a.leading_zeros() >= b.leading_zeros()`.
pub proof fn law_leading_zeros_monotone(a: Id, b: Id, na: int, nb: int)
    requires
        bytes_le(a.id@, b.id@),
        is_leading_zero_count(a.id@, na),
        is_leading_zero_count(b.id@, nb),
    ensures
        na >= nb,
{
    lemma_leading_zero_bits_antitone(a.id@, b.id@);
    lemma_leading_zero_bits(a.id@);
    lemma_leading_zero_bits(b.id@);
    lemma_leading_zero_count_unique(a.id@, na, leading_zero_bits(a.id@));
    lemma_leading_zero_count_unique(b.id@, nb, leading_zero_bits(b.id@));
}

proof fn lemma_byte_with_no_bits_is_zero(b: u8)
    requires
        forall|k: u8| k < 8 ==> !byte_bit(b, k),
    ensures
        b == 0,
{
    assert(!byte_bit(b, 0));
    assert(!byte_bit(b, 1));
    assert(!byte_bit(b, 2));
    assert(!byte_bit(b, 3));
    assert(!byte_bit(b, 4));
    assert(!byte_bit(b, 5));
    assert(!byte_bit(b, 6));
    assert(!byte_bit(b, 7));
    assert((b >> 0u8) & 1u8 != 1u8 && (b >> 1u8) & 1u8 != 1u8 && (b >> 2u8) & 1u8 != 1u8
        && (b >> 3u8) & 1u8 != 1u8 && (b >> 4u8) & 1u8 != 1u8 && (b >> 5u8) & 1u8 != 1u8
        && (b >> 6u8) & 1u8 != 1u8 && (b >> 7u8) & 1u8 != 1u8 ==> b == 0u8) by (bit_vector);
}

/// Bit `k` of byte `b`, counted from the least significant bit.
pub open spec fn byte_bit(b: u8, k: u8) -> bool {
    (b >> k) & 1u8 == 1u8
}

proof fn lemma_xor_byte_bit(x: u8, y: u8, k: u8)
    requires
        k < 8,
    ensures
        byte_bit(x ^ y, k) == (byte_bit(x, k) != byte_bit(y, k)),
{
    assert(((x ^ y) >> k) & 1u8 == 1u8 <==> (((x >> k) & 1u8 == 1u8) != ((y >> k) & 1u8 == 1u8)))
        by (bit_vector)
        requires k < 8u8;
}

/// A bit of the XOR of two strings is set exactly where their bits differ.
pub proof fn lemma_xor_bit(a: Seq<u8>, b: Seq<u8>, j: int)
    requires
        a.len() == b.len(),
        0 <= j < 8 * a.len(),
    ensures
        bit_at(xor_seq(a, b), j) == (bit_at(a, j) != bit_at(b, j)),
{
    assert(0 <= j / 8 < a.len());
    lemma_xor_byte_bit(a[j / 8], b[j / 8], (7 - j % 8) as u8);
}

/// The leading-zero count of a bit string is unique.
pub proof fn lemma_leading_zero_count_unique(s: Seq<u8>, n: int, m: int)
    requires
        is_leading_zero_count(s, n),
        is_leading_zero_count(s, m),
    ensures
        n == m,
{
    if n < m {
        assert(!bit_at(s, n));
    } else if m < n {
        assert(!bit_at(s, m));
    }
}

/// Two strings that agree on their first `i` bits and differ at bit `i`
/// have a XOR with exactly `i` leading zeros.
pub proof fn lemma_xor_leading_zeros_at_first_difference(a: Seq<u8>, b: Seq<u8>, i: int)
    requires
        a.len() == b.len(),
        0 <= i < 8 * a.len(),
        forall|j: int| 0 <= j < i ==> bit_at(a, j) == bit_at(b, j),
        bit_at(a, i) != bit_at(b, i),
    ensures
        is_leading_zero_count(xor_seq(a, b), i),
{
    assert forall|j: int| 0 <= j < i implies !#[trigger] bit_at(xor_seq(a, b), j) by {
        lemma_xor_bit(a, b, j);
    }
    lemma_xor_bit(a, b, i);
}

proof fn lemma_flip_byte_bit(b: u8, k: u8, m: u8)
    requires
        k < 8,
        m < 8,
    ensures
        byte_bit(b ^ (1u8 << k), m) == if m == k { !byte_bit(b, m) } else { byte_bit(b, m) },
{
    assert(((b ^ (1u8 << k)) >> m) & 1u8 == 1u8 <==> (if m == k { !((b >> m) & 1u8 == 1u8) } else { (b >> m) & 1u8 == 1u8 }))
        by (bit_vector)
        requires k < 8u8, m < 8u8;
}

proof fn lemma_set_byte_bit(b: u8, k: u8, m: u8)
    requires
        k < 8,
        m < 8,
    ensures
        byte_bit(b | (1u8 << k), m) == if m == k { true } else { byte_bit(b, m) },
        byte_bit(b & !(1u8 << k), m) == if m == k { false } else { byte_bit(b, m) },
{
    assert(((b | (1u8 << k)) >> m) & 1u8 == 1u8 <==> (if m == k { true } else { (b >> m) & 1u8 == 1u8 }))
        by (bit_vector)
        requires k < 8u8, m < 8u8;
    assert(((b & !(1u8 << k)) >> m) & 1u8 == 1u8 <==> (if m == k { false } else { (b >> m) & 1u8 == 1u8 }))
        by (bit_vector)
        requires k < 8u8, m < 8u8;
}

/// Bit `j` of an identifier is set to `v` (`flip` false) or inverted
/// (`flip` true); every other bit keeps its value.
fn update_bit(id: &mut [u8; 20], j: usize, v: bool, flip: bool)
    requires
        j < 160,
    ensures
        bit_at(final(id)@, j as int) == if flip { !bit_at(old(id)@, j as int) } else { v },
        forall|p: int| 0 <= p < 160 && p != j ==> #[trigger] bit_at(final(id)@, p) == bit_at(old(id)@, p),
{
    let byte = j / 8;
    let shift = (7 - j % 8) as u8;
    let mask: u8 = 1u8 << shift;
    let old_byte = id[byte];
    let new_byte = if flip { old_byte ^ mask } else if v { old_byte | mask } else { old_byte & !mask };
    id[byte] = new_byte;
    proof {
        assert forall|m: u8| m < 8 implies byte_bit(new_byte, m) == if m == shift {
            if flip { !byte_bit(old_byte, m) } else { v }
        } else {
            byte_bit(old_byte, m)
        } by {
            lemma_flip_byte_bit(old_byte, shift, m);
            lemma_set_byte_bit(old_byte, shift, m);
        }
        assert(byte_bit(new_byte, shift) == if flip { !byte_bit(old_byte, shift) } else { v });
        assert(bit_at(id@, j as int) == byte_bit(id@[byte as int], shift));
        assert(bit_at(old(id)@, j as int) == byte_bit(old_byte, shift));
        assert forall|p: int| 0 <= p < 160 && p != j implies #[trigger] bit_at(id@, p) == bit_at(old(id)@, p) by {
            if p / 8 == byte as int {
                assert(p % 8 != j % 8);
                let m = (7 - p % 8) as u8;
                assert(m != shift);
                assert(byte_bit(new_byte, m) == byte_bit(old_byte, m));
            } else {
                assert(id@[p / 8] == old(id)@[p / 8]);
            }
        }
    }
}

impl PartialEq for Id {
    fn eq(&self, other: &Id) -> (r: bool) {
        let mut i: usize = 0;
        while i < 20
            invariant
                i <= 20,
                forall|j: int| 0 <= j < i ==> self.id@[j] == other.id@[j],
            decreases 20 - i,
        {
            if self.id[i] != other.id[i] {
                return false;
            }
            i = i + 1;
        }
        assert(self.id@ =~= other.id@);
        assert(self.id =~= other.id);
        true
    }
}

impl PartialEqSpecImpl for Id {
    open spec fn obeys_eq_spec() -> bool {
        true
    }

    open spec fn eq_spec(&self, other: &Id) -> bool {
        *self == *other
    }
}

} // verus!
