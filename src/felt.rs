use starknet_crypto::Felt;
use vstd::prelude::*;

verus! {

/// A scalar of the VM's prime field, as four 64-bit limbs, most significant first.
#[derive(Clone, Copy, Debug, PartialEq, Eq, Structural)]
pub struct FieldElement {
    pub d0: u64,
    pub d1: u64,
    pub d2: u64,
    pub d3: u64,
}

/// The prime of the field, 2^251 + 17 * 2^192 + 1.
pub open spec fn field_prime() -> int {
    (((0x0800_0000_0000_0011 * 0x1_0000_0000_0000_0000) * 0x1_0000_0000_0000_0000) * 0x1_0000_0000_0000_0000 + 1) as int
}

impl FieldElement {
    /// A canonical element: its value is below the field's prime, so `==` on elements is
    /// equality in the field.
    pub open spec fn wf(self) -> bool {
        self.value() < field_prime()
    }

    /// The integer that the limbs spell.
    pub open spec fn value(self) -> int {
        ((self.d0 * 0x1_0000_0000_0000_0000 + self.d1) * 0x1_0000_0000_0000_0000 + self.d2) * 0x1_0000_0000_0000_0000 + self.d3
    }

    pub fn from_u64(x: u64) -> (r: FieldElement)
        ensures
            r.value() == x,
            r.wf(),
    {
        FieldElement { d0: 0, d1: 0, d2: 0, d3: x }
    }

    pub fn from_u128(x: u128) -> (r: FieldElement)
        ensures
            r.value() == x,
            r.wf(),
    {
        let hi: u64 = (x / 0x1_0000_0000_0000_0000) as u64;
        let lo: u64 = (x % 0x1_0000_0000_0000_0000) as u64;
        FieldElement { d0: 0, d1: 0, d2: hi, d3: lo }
    }
}

proof fn lemma_digit(x: int, a: int, y: int, b: int)
    requires
        0 <= a < 0x1_0000_0000_0000_0000,
        0 <= b < 0x1_0000_0000_0000_0000,
        x * 0x1_0000_0000_0000_0000 + a == y * 0x1_0000_0000_0000_0000 + b,
    ensures
        x == y,
        a == b,
{
}

/// Two field elements are equal exactly when their values are.
pub proof fn lemma_value_injective(a: FieldElement, b: FieldElement)
    ensures
        (a == b) <==> (a.value() == b.value()),
{
    if a.value() == b.value() {
        lemma_digit((a.d0 * 0x1_0000_0000_0000_0000 + a.d1) * 0x1_0000_0000_0000_0000 + a.d2, a.d3 as int,
            (b.d0 * 0x1_0000_0000_0000_0000 + b.d1) * 0x1_0000_0000_0000_0000 + b.d2, b.d3 as int);
        lemma_digit(a.d0 * 0x1_0000_0000_0000_0000 + a.d1, a.d2 as int, b.d0 * 0x1_0000_0000_0000_0000 + b.d1, b.d2 as int);
        lemma_digit(a.d0 as int, a.d1 as int, b.d0 as int, b.d1 as int);
    }
}

/// The Poseidon sponge over a sequence of field values, as the field defines it.
pub uninterp spec fn poseidon_many(inputs: Seq<int>) -> int;

pub open spec fn values_of(xs: Seq<FieldElement>) -> Seq<int> {
    xs.map_values(|x: FieldElement| x.value())
}

/// Relies on starknet_crypto::poseidon_hash_many: the sponge hash of the inputs in order,
/// a function of the inputs alone; its digits are those of the canonical representative.
#[verifier::external_body]
pub(crate) fn poseidon_hash_many(xs: &Vec<FieldElement>) -> (r: FieldElement)
    ensures
        r.value() == poseidon_many(values_of(xs@)),
        r.wf(),
{
    let felts: Vec<Felt> = xs.iter().map(|x| {
        Felt::from_bytes_be_slice(&[x.d0.to_be_bytes(), x.d1.to_be_bytes(), x.d2.to_be_bytes(), x.d3.to_be_bytes()].concat())
    }).collect();
    let d = starknet_crypto::poseidon_hash_many(felts.iter()).to_be_digits();
    FieldElement { d0: d[0], d1: d[1], d2: d[2], d3: d[3] }
}

/// The integer that a little-endian byte string spells.
pub open spec fn le_value(s: Seq<u8>) -> int
    decreases s.len(),
{
    if s.len() == 0 {
        0
    } else {
        s[0] + 256 * le_value(s.drop_first())
    }
}

pub open spec fn pow256(n: nat) -> int
    decreases n,
{
    if n == 0 {
        1
    } else {
        256 * pow256((n - 1) as nat)
    }
}

proof fn lemma_pow256_mono(m: nat, n: nat)
    requires
        m <= n,
    ensures
        1 <= pow256(m) <= pow256(n),
    decreases n,
{
    if n > 0 {
        if m < n {
            lemma_pow256_mono(m, (n - 1) as nat);
        } else {
            lemma_pow256_mono((m - 1) as nat, (n - 1) as nat);
        }
    }
}

/// Reads `len` bytes from `start` as a little-endian integer.
fn le_word(b: &[u8; 20], start: usize, len: usize) -> (r: u64)
    requires
        start + len <= 20,
        len <= 8,
    ensures
        r == le_value(b@.subrange(start as int, start + len)),
        r < pow256(len as nat),
{
    let mut acc: u64 = 0;
    let mut i: usize = len;
    proof {
        reveal_with_fuel(pow256, 9);
        assert(b@.subrange(start + len, start + len).len() == 0);
    }
    while i > 0
        invariant
            start + len <= 20,
            len <= 8,
            i <= len,
            acc == le_value(b@.subrange(start + i, start + len)),
            acc < pow256((len - i) as nat),
        decreases i,
    {
        proof {
            lemma_pow256_mono((len - i) as nat, 7);
            reveal_with_fuel(pow256, 9);
            assert(b@.subrange(start + i - 1, start + len).drop_first() =~= b@.subrange(start + i, start + len));
        }
        acc = (b[start + i - 1] as u64) + acc * 256;
        i = i - 1;
    }
    acc
}

/// The field element whose value is the 20-byte little-endian address `b`, split into limbs.
pub open spec fn address_limbs(b: Seq<u8>) -> FieldElement {
    FieldElement {
        d0: 0,
        d1: le_value(b.subrange(16, 20)) as u64,
        d2: le_value(b.subrange(8, 16)) as u64,
        d3: le_value(b.subrange(0, 8)) as u64,
    }
}

/// Reads a 20-byte little-endian address as a field element.
pub fn felt_from_address(b: &[u8; 20]) -> (r: FieldElement)
    ensures
        r == address_limbs(b@),
        r.wf(),
{
    let d1 = le_word(b, 16, 4);
    proof {
        reveal_with_fuel(pow256, 5);
    }
    let d2 = le_word(b, 8, 8);
    let d3 = le_word(b, 0, 8);
    FieldElement { d0: 0, d1, d2, d3 }
}

} // verus!
