use core::cmp::Ordering;
use vstd::prelude::*;

verus! {

/// A 20-byte identifier of the Kademlia address space: a node ID or an info hash.
#[derive(Clone, Copy, Ord)]
pub struct Id20(pub [u8; 20]);

/// Byte-wise exclusive-or of two byte sequences of equal length.
pub open spec fn xor_seq(a: Seq<u8>, b: Seq<u8>) -> Seq<u8> {
    Seq::new(a.len(), |i: int| a[i] ^ b[i])
}

/// Unsigned lexicographic comparison, most significant byte (index 0) first.
pub open spec fn lex_cmp(a: Seq<u8>, b: Seq<u8>) -> Ordering
    decreases a.len(),
{
    if a.len() == 0 || b.len() == 0 {
        Ordering::Equal
    } else if a[0] < b[0] {
        Ordering::Less
    } else if a[0] > b[0] {
        Ordering::Greater
    } else {
        lex_cmp(a.drop_first(), b.drop_first())
    }
}

/// The error of decoding an identifier from a byte string of the wrong length.
#[derive(Clone, Copy, Debug, PartialEq, Eq, Structural)]
pub struct InvalidLength {
    /// The length an encoded identifier has: always 20.
    pub expected: usize,
    /// The length of the byte string that was given.
    pub actual: usize,
}

/// The wire form of an identifier: its 20 bytes as they are, with no framing.
pub open spec fn encode(id: Seq<u8>) -> Seq<u8> {
    id
}

/// What decoding a byte string yields: the identifier spelled by exactly 20
/// bytes, or `InvalidLength` for any other length.
pub open spec fn decode(bytes: Seq<u8>) -> Result<Seq<u8>, InvalidLength> {
    if bytes.len() == 20 {
        Ok(bytes)
    } else {
        Err(InvalidLength { expected: 20, actual: bytes.len() as usize })
    }
}

/// The sixteen lowercase hexadecimal digits, in order of value.
pub open spec fn hex_digits() -> Seq<char> {
    seq!['0', '1', '2', '3', '4', '5', '6', '7', '8', '9', 'a', 'b', 'c', 'd', 'e', 'f']
}

/// A byte as two lowercase hexadecimal digits, high nibble first.
pub open spec fn byte_hex(b: u8) -> Seq<char> {
    seq![hex_digits()[b as int / 16], hex_digits()[b as int % 16]]
}

/// The bytes of `s`, each as two lowercase hexadecimal digits.
pub open spec fn hex_seq(s: Seq<u8>) -> Seq<char>
    decreases s.len(),
{
    if s.len() == 0 {
        Seq::empty()
    } else {
        hex_seq(s.drop_last()) + byte_hex(s.last())
    }
}

/// The diagnostic form of an identifier: `<`, the bytes in hexadecimal, `>`.
pub open spec fn debug_form(s: Seq<u8>) -> Seq<char> {
    seq!['<'] + hex_seq(s) + seq!['>']
}

/// Appends the hexadecimal digit of value `d` to `out`.
fn push_hex_digit(out: &mut String, d: u8)
    requires
        d < 16,
    ensures
        final(out)@ == old(out)@.push(hex_digits()[d as int]),
{
    let digits = "0123456789abcdef";
    proof {
        reveal_strlit("0123456789abcdef");
    }
    assert(digits@ =~= hex_digits());
    let digit = digits.substring_char(d as usize, d as usize + 1);
    assert(digit@ =~= seq![hex_digits()[d as int]]);
    out.append(digit);
}

impl View for Id20 {
    type V = Seq<u8>;

    open spec fn view(&self) -> Seq<u8> {
        self.0@
    }
}

impl Id20 {
    /// The XOR metric: byte `i` of the result is `self[i] ^ other[i]`.
    pub fn distance(&self, other: &Id20) -> (r: Id20)
        ensures
            r@ == xor_seq(self@, other@),
    {
        let mut xor = [0u8; 20];
        let mut idx: usize = 0;
        while idx < 20
            invariant
                idx <= 20,
                forall|j: int| 0 <= j < idx ==> xor@[j] == self@[j] ^ other@[j],
            decreases 20 - idx,
        {
            xor[idx] = self.0[idx] ^ other.0[idx];
            idx = idx + 1;
        }
        let r = Id20(xor);
        assert(r@ =~= xor_seq(self@, other@));
        r
    }

    /// Wraps 20 bytes as an identifier, verbatim.
    pub fn new(bytes: [u8; 20]) -> (r: Id20)
        ensures
            r@ == bytes@,
    {
        Id20(bytes)
    }

    /// Encodes the identifier as a raw byte string of exactly 20 bytes.
    pub fn serialize(&self) -> (r: Vec<u8>)
        ensures
            r@ == encode(self@),
            r@.len() == 20,
    {
        let mut out: Vec<u8> = Vec::with_capacity(20);
        let mut idx: usize = 0;
        while idx < 20
            invariant
                idx <= 20,
                out@ == self@.subrange(0, idx as int),
            decreases 20 - idx,
        {
            out.push(self.0[idx]);
            idx = idx + 1;
            assert(out@ =~= self@.subrange(0, idx as int));
        }
        assert(out@ =~= self@);
        out
    }

    /// Decodes an identifier from a raw byte string, copying the bytes.
    /// Fails with `InvalidLength` unless the input has exactly 20 bytes.
    pub fn deserialize(v: &[u8]) -> (r: Result<Id20, InvalidLength>)
        ensures
            r is Ok <==> v@.len() == 20,
            match r {
                Ok(id) => decode(v@) == Ok::<Seq<u8>, InvalidLength>(id@),
                Err(e) => decode(v@) == Err::<Seq<u8>, InvalidLength>(e),
            },
            v@.len() != 20 ==> r == Err::<Id20, InvalidLength>(
                InvalidLength { expected: 20, actual: v@.len() as usize },
            ),
    {
        if v.len() != 20 {
            return Err(InvalidLength { expected: 20, actual: v.len() });
        }
        let mut buf = [0u8; 20];
        let mut idx: usize = 0;
        while idx < 20
            invariant
                idx <= 20,
                v@.len() == 20,
                forall|j: int| 0 <= j < idx ==> buf@[j] == v@[j],
            decreases 20 - idx,
        {
            buf[idx] = v[idx];
            idx = idx + 1;
        }
        assert(buf@ =~= v@);
        Ok(Id20(buf))
    }

    /// Renders the identifier for diagnostics as `<` + 40 lowercase
    /// hexadecimal digits + `>`; not meant to be parsed back.
    pub fn to_debug_string(&self) -> (r: String)
        ensures
            r@ == debug_form(self@),
    {
        let mut out = String::from_str("<");
        proof {
            reveal_strlit("<");
        }
        let mut idx: usize = 0;
        assert(self@.subrange(0, 0) =~= Seq::<u8>::empty());
        while idx < 20
            invariant
                idx <= 20,
                self@.len() == 20,
                out@ == seq!['<'] + hex_seq(self@.subrange(0, idx as int)),
            decreases 20 - idx,
        {
            let b = self.0[idx];
            push_hex_digit(&mut out, b / 16);
            push_hex_digit(&mut out, b % 16);
            proof {
                let pre = self@.subrange(0, idx as int);
                let next = self@.subrange(0, idx + 1);
                assert(next.drop_last() =~= pre);
                assert(next.last() == b);
            }
            idx = idx + 1;
            assert(out@ =~= seq!['<'] + hex_seq(self@.subrange(0, idx as int)));
        }
        assert(self@.subrange(0, 20) =~= self@);
        out.append(">");
        proof {
            reveal_strlit(">");
        }
        assert(out@ =~= debug_form(self@));
        out
    }

    /// Total order on identifiers: unsigned byte-wise lexicographic order,
    /// that is, the order of the 160-bit big-endian integers they spell.
    pub fn compare(&self, other: &Id20) -> (r: Ordering)
        ensures
            r == lex_cmp(self@, other@),
    {
        let mut idx: usize = 0;
        assert(self@.subrange(0, 20) =~= self@);
        assert(other@.subrange(0, 20) =~= other@);
        while idx < 20
            invariant
                idx <= 20,
                self@.len() == 20,
                other@.len() == 20,
                lex_cmp(self@, other@) == lex_cmp(self@.subrange(idx as int, 20), other@.subrange(idx as int, 20)),
            decreases 20 - idx,
        {
            let s = self.0[idx];
            let o = other.0[idx];
            assert(self@.subrange(idx as int, 20).drop_first() =~= self@.subrange(idx + 1, 20));
            assert(other@.subrange(idx as int, 20).drop_first() =~= other@.subrange(idx + 1, 20));
            if s < o {
                return Ordering::Less;
            } else if s > o {
                return Ordering::Greater;
            }
            idx = idx + 1;
        }
        Ordering::Equal
    }
}

/// The ordering seen from the other side.
pub open spec fn flip(o: Ordering) -> Ordering {
    match o {
        Ordering::Less => Ordering::Greater,
        Ordering::Equal => Ordering::Equal,
        Ordering::Greater => Ordering::Less,
    }
}

/// The XOR distance is symmetric: `a.distance(b) == b.distance(a)`.
pub proof fn lemma_distance_symmetric(a: Id20, b: Id20)
    ensures
        xor_seq(a@, b@) == xor_seq(b@, a@),
{
    assert forall|i: int| 0 <= i < 20 implies #[trigger] xor_seq(a@, b@)[i] == xor_seq(b@, a@)[i] by {
        let (x, y) = (a@[i], b@[i]);
        assert(x ^ y == y ^ x) by (bit_vector);
    }
    assert(xor_seq(a@, b@) =~= xor_seq(b@, a@));
}

/// The distance of an identifier to itself is the all-zero identifier.
pub proof fn lemma_distance_self_is_zero(a: Id20)
    ensures
        xor_seq(a@, a@) == Seq::new(20, |_i: int| 0u8),
{
    assert forall|i: int| 0 <= i < 20 implies #[trigger] xor_seq(a@, a@)[i] == 0u8 by {
        let x = a@[i];
        assert(x ^ x == 0) by (bit_vector);
    }
    assert(xor_seq(a@, a@) =~= Seq::new(20, |_i: int| 0u8));
}

/// Distances compose by XOR: `d(a, b) ^ d(b, c) == d(a, c)`, byte by byte.
pub proof fn lemma_distance_xor_chain(a: Id20, b: Id20, c: Id20)
    ensures
        xor_seq(xor_seq(a@, b@), xor_seq(b@, c@)) == xor_seq(a@, c@),
{
    let lhs = xor_seq(xor_seq(a@, b@), xor_seq(b@, c@));
    assert forall|i: int| 0 <= i < 20 implies #[trigger] lhs[i] == xor_seq(a@, c@)[i] by {
        let (x, y, z) = (a@[i], b@[i], c@[i]);
        assert((x ^ y) ^ (y ^ z) == x ^ z) by (bit_vector);
    }
    assert(lhs =~= xor_seq(a@, c@));
}

proof fn lemma_lex_cmp_flip(a: Seq<u8>, b: Seq<u8>)
    ensures
        lex_cmp(a, b) == flip(lex_cmp(b, a)),
    decreases a.len(),
{
    if a.len() > 0 && b.len() > 0 && a[0] == b[0] {
        lemma_lex_cmp_flip(a.drop_first(), b.drop_first());
    }
}

proof fn lemma_lex_cmp_equal(a: Seq<u8>, b: Seq<u8>)
    requires
        a.len() == b.len(),
    ensures
        lex_cmp(a, b) == Ordering::Equal <==> a == b,
    decreases a.len(),
{
    if a.len() > 0 {
        lemma_lex_cmp_equal(a.drop_first(), b.drop_first());
        if a[0] == b[0] && a.drop_first() == b.drop_first() {
            assert(a =~= seq![a[0]] + a.drop_first());
            assert(b =~= seq![b[0]] + b.drop_first());
        }
    } else {
        assert(a =~= b);
    }
}

proof fn lemma_lex_cmp_less_transitive(a: Seq<u8>, b: Seq<u8>, c: Seq<u8>)
    requires
        lex_cmp(a, b) == Ordering::Less,
        lex_cmp(b, c) == Ordering::Less,
    ensures
        lex_cmp(a, c) == Ordering::Less,
    decreases a.len(),
{
    if a[0] == b[0] && b[0] == c[0] {
        lemma_lex_cmp_less_transitive(a.drop_first(), b.drop_first(), c.drop_first());
    }
}

/// Comparing an identifier with itself gives `Equal`.
pub proof fn lemma_compare_reflexive(a: Id20)
    ensures
        lex_cmp(a@, a@) == Ordering::Equal,
{
    lemma_lex_cmp_equal(a@, a@);
}

/// The order is total and antisymmetric: `compare(a, b)` is `compare(b, a)`
/// reversed, and it is `Equal` exactly when the identifiers are equal.
pub proof fn lemma_compare_antisymmetric(a: Id20, b: Id20)
    ensures
        lex_cmp(a@, b@) == flip(lex_cmp(b@, a@)),
        lex_cmp(a@, b@) == Ordering::Equal <==> a@ == b@,
{
    lemma_lex_cmp_flip(a@, b@);
    lemma_lex_cmp_equal(a@, b@);
}

/// The order is transitive: `a < b` and `b < c` give `a < c`.
pub proof fn lemma_compare_transitive(a: Id20, b: Id20, c: Id20)
    requires
        lex_cmp(a@, b@) == Ordering::Less,
        lex_cmp(b@, c@) == Ordering::Less,
    ensures
        lex_cmp(a@, c@) == Ordering::Less,
{
    lemma_lex_cmp_less_transitive(a@, b@, c@);
}

/// `256` raised to the power `n`.
pub open spec fn pow256(n: nat) -> nat
    decreases n,
{
    if n == 0 {
        1
    } else {
        256 * pow256((n - 1) as nat)
    }
}

/// The unsigned integer that `s` spells in big-endian order.
pub open spec fn be_value(s: Seq<u8>) -> nat
    decreases s.len(),
{
    if s.len() == 0 {
        0
    } else {
        s[0] as nat * pow256((s.len() - 1) as nat) + be_value(s.drop_first())
    }
}

proof fn lemma_be_value_bound(s: Seq<u8>)
    ensures
        be_value(s) < pow256(s.len()),
    decreases s.len(),
{
    if s.len() > 0 {
        let p = pow256((s.len() - 1) as nat);
        let d = s[0] as nat;
        lemma_be_value_bound(s.drop_first());
        assert(d * p + p <= 256 * p) by (nonlinear_arith)
            requires
                d < 256,
        ;
    }
}

proof fn lemma_lex_cmp_be_value(a: Seq<u8>, b: Seq<u8>)
    requires
        a.len() == b.len(),
    ensures
        lex_cmp(a, b) == Ordering::Less <==> be_value(a) < be_value(b),
        lex_cmp(a, b) == Ordering::Equal <==> be_value(a) == be_value(b),
        lex_cmp(a, b) == Ordering::Greater <==> be_value(a) > be_value(b),
    decreases a.len(),
{
    if a.len() > 0 {
        let p = pow256((a.len() - 1) as nat);
        let (x, y) = (a[0] as nat, b[0] as nat);
        lemma_be_value_bound(a.drop_first());
        lemma_be_value_bound(b.drop_first());
        lemma_lex_cmp_be_value(a.drop_first(), b.drop_first());
        if x < y {
            assert(x * p + p <= y * p) by (nonlinear_arith)
                requires
                    x < y,
            ;
        } else if x > y {
            assert(y * p + p <= x * p) by (nonlinear_arith)
                requires
                    y < x,
            ;
        }
    }
}

/// The order is that of the identifiers read as 160-bit unsigned
/// big-endian integers.
pub proof fn lemma_compare_is_numeric(a: Id20, b: Id20)
    ensures
        lex_cmp(a@, b@) == Ordering::Less <==> be_value(a@) < be_value(b@),
        lex_cmp(a@, b@) == Ordering::Equal <==> be_value(a@) == be_value(b@),
        lex_cmp(a@, b@) == Ordering::Greater <==> be_value(a@) > be_value(b@),
{
    lemma_lex_cmp_be_value(a@, b@);
}

/// Decoding the encoding of an identifier gives the identifier back.
pub proof fn lemma_round_trip(x: Id20)
    ensures
        decode(encode(x@)) == Ok::<Seq<u8>, InvalidLength>(x@),
{
}

impl PartialEq for Id20 {
    fn eq(&self, other: &Id20) -> (r: bool)
        ensures
            r == (self@ == other@),
    {
        let mut idx: usize = 0;
        while idx < 20
            invariant
                idx <= 20,
                forall|j: int| 0 <= j < idx ==> self@[j] == other@[j],
            decreases 20 - idx,
        {
            if self.0[idx] != other.0[idx] {
                return false;
            }
            idx = idx + 1;
        }
        assert(self@ =~= other@);
        true
    }
}

impl vstd::std_specs::cmp::PartialEqSpecImpl for Id20 {
    open spec fn obeys_eq_spec() -> bool {
        true
    }

    open spec fn eq_spec(&self, other: &Id20) -> bool {
        self@ == other@
    }
}

impl Eq for Id20 {}

impl PartialOrd for Id20 {
    fn partial_cmp(&self, other: &Id20) -> (r: Option<Ordering>)
        ensures
            r == Some(lex_cmp(self@, other@)),
    {
        Some(self.compare(other))
    }
}

impl vstd::std_specs::cmp::PartialOrdSpecImpl for Id20 {
    open spec fn obeys_partial_cmp_spec() -> bool {
        true
    }

    open spec fn partial_cmp_spec(&self, other: &Id20) -> Option<Ordering> {
        Some(lex_cmp(self@, other@))
    }
}

} // verus!
