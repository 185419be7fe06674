use vstd::prelude::*;
use vstd::std_specs::ops::BitAndSpecImpl;
use vstd::std_specs::ops::BitOrSpecImpl;
use vstd::std_specs::ops::BitXorSpecImpl;
use vstd::std_specs::ops::NotSpecImpl;

verus! {

/// A value carried by a wire: `size` bits stored in the low bits of `value`.
#[derive(Debug, Clone, Copy, PartialEq, Eq, Structural)]
pub struct Data {
    pub value: usize,
    pub size: u8,
}

/// Mask that keeps the low `size` bits of a machine word.
pub open spec fn low_mask(size: u8) -> usize {
    ((1usize << size) - 1usize) as usize
}

/// Bit `index` of `v`.
pub open spec fn bit_of(v: usize, index: u8) -> bool {
    (v >> index) & 1usize == 1usize
}

impl Data {
    /// A width that the masking operations can handle without a shift overflow.
    pub open spec fn width_ok(self) -> bool {
        (self.size as u32) < usize::BITS
    }

    /// No bit at or above `size` is set.
    pub open spec fn fits(self) -> bool {
        self.width_ok() && self.value & !low_mask(self.size) == 0
    }

    pub fn new(value: usize, size: u8) -> (d: Self)
        ensures
            d.value == value,
            d.size == size,
    {
        Data { value, size }
    }

    pub fn high() -> (d: Self)
        ensures
            d.value == 1,
            d.size == 1,
    {
        Data { value: 1, size: 1 }
    }

    pub fn low() -> (d: Self)
        ensures
            d.value == 0,
            d.size == 1,
    {
        Data { value: 0, size: 1 }
    }

    pub fn bit(value: bool) -> (d: Self)
        ensures
            d.value == (if value { 1usize } else { 0usize }),
            d.size == 1,
    {
        Data { value: if value { 1 } else { 0 }, size: 1 }
    }

    pub fn as_bool(&self) -> (b: bool)
        ensures
            b == (self.value != 0),
    {
        self.value != 0
    }

    pub fn set_bit(&mut self, value: bool)
        ensures
            final(self).value == (if value { 1usize } else { 0usize }),
            final(self).size == old(self).size,
    {
        self.value = if value { 1 } else { 0 };
    }

    pub fn set_bit_at(&mut self, index: u8, value: bool)
        requires
            index < old(self).size,
            (index as u32) < usize::BITS,
        ensures
            final(self).size == old(self).size,
            final(self).value == (if value {
                old(self).value | (1usize << index)
            } else {
                old(self).value & !(1usize << index)
            }),
    {
        if value {
            self.value = self.value | (1usize << index);
        } else {
            self.value = self.value & !(1usize << index);
        }
    }

    pub fn get_bit_at(&self, index: u8) -> (b: bool)
        requires
            index < self.size,
            (index as u32) < usize::BITS,
        ensures
            b == bit_of(self.value, index),
    {
        let v = self.value;
        assert(((v >> index) & 1usize != 0) == ((v >> index) & 1usize == 1usize)) by (bit_vector);
        (v >> index) & 1 != 0
    }

    pub fn set_data(&mut self, value: usize)
        requires
            old(self).width_ok(),
        ensures
            final(self).size == old(self).size,
            final(self).value == value & low_mask(old(self).size),
    {
        let size = self.size;
        assert(1usize << size >= 1usize) by (bit_vector)
            requires
                (size as u32) < usize::BITS,
        ;
        self.value = value & ((1usize << size) - 1);
    }

    pub fn set_from(&mut self, other: Data)
        requires
            old(self).size == other.size,
        ensures
            *final(self) == other,
    {
        self.value = other.value;
    }
}


impl Data {
    /// Result of a bitwise operation on two values of the same width: `bits`
    /// cut down to that width.
    pub open spec fn masked(bits: usize, size: u8) -> Data {
        Data { value: bits & low_mask(size), size }
    }
}

impl core::ops::BitAnd for Data {
    type Output = Data;

    fn bitand(self, rhs: Data) -> (r: Data)
        ensures
            r == Data::masked(self.value & rhs.value, self.size),
    {
        let size = self.size;
        assert(1usize << size >= 1usize) by (bit_vector)
            requires
                (size as u32) < usize::BITS,
        ;
        Data::new((self.value & rhs.value) & ((1usize << size) - 1), size)
    }
}

impl BitAndSpecImpl for Data {
    open spec fn obeys_bitand_spec() -> bool {
        true
    }

    open spec fn bitand_req(self, rhs: Data) -> bool {
        self.size == rhs.size && self.width_ok()
    }

    open spec fn bitand_spec(self, rhs: Data) -> Data {
        Data::masked(self.value & rhs.value, self.size)
    }
}


impl core::ops::BitOr for Data {
    type Output = Data;

    fn bitor(self, rhs: Data) -> (r: Data)
        ensures
            r == Data::masked(self.value | rhs.value, self.size),
    {
        let size = self.size;
        assert(1usize << size >= 1usize) by (bit_vector)
            requires
                (size as u32) < usize::BITS,
        ;
        Data::new((self.value | rhs.value) & ((1usize << size) - 1), size)
    }
}

impl BitOrSpecImpl for Data {
    open spec fn obeys_bitor_spec() -> bool {
        true
    }

    open spec fn bitor_req(self, rhs: Data) -> bool {
        self.size == rhs.size && self.width_ok()
    }

    open spec fn bitor_spec(self, rhs: Data) -> Data {
        Data::masked(self.value | rhs.value, self.size)
    }
}

impl core::ops::BitXor for Data {
    type Output = Data;

    fn bitxor(self, rhs: Data) -> (r: Data)
        ensures
            r == Data::masked(self.value ^ rhs.value, self.size),
    {
        let size = self.size;
        assert(1usize << size >= 1usize) by (bit_vector)
            requires
                (size as u32) < usize::BITS,
        ;
        Data::new((self.value ^ rhs.value) & ((1usize << size) - 1), size)
    }
}

impl BitXorSpecImpl for Data {
    open spec fn obeys_bitxor_spec() -> bool {
        true
    }

    open spec fn bitxor_req(self, rhs: Data) -> bool {
        self.size == rhs.size && self.width_ok()
    }

    open spec fn bitxor_spec(self, rhs: Data) -> Data {
        Data::masked(self.value ^ rhs.value, self.size)
    }
}

impl core::ops::Not for Data {
    type Output = Data;

    fn not(self) -> (r: Data)
        ensures
            r == Data::masked(!self.value, self.size),
    {
        let size = self.size;
        assert(1usize << size >= 1usize) by (bit_vector)
            requires
                (size as u32) < usize::BITS,
        ;
        Data::new((!self.value) & ((1usize << size) - 1), size)
    }
}

impl NotSpecImpl for Data {
    open spec fn obeys_not_spec() -> bool {
        true
    }

    open spec fn not_req(self) -> bool {
        self.width_ok()
    }

    open spec fn not_spec(self) -> Data {
        Data::masked(!self.value, self.size)
    }
}

impl Default for Data {
    fn default() -> (d: Data)
        ensures
            d == (Data { value: 0, size: 0 }),
    {
        Data { value: 0, size: 0 }
    }
}

/// Text of one bit: a green square when set, a black one when clear.
pub open spec fn bit_text(set: bool) -> Seq<char> {
    if set { "🟩"@ } else { "⬛"@ }
}

/// Text of the low `count` bits of `value`, lowest bit first.
pub open spec fn bits_text(value: usize, count: nat) -> Seq<char>
    decreases count,
{
    if count == 0 {
        Seq::empty()
    } else {
        bits_text(value, (count - 1) as nat) + bit_text(bit_of(value, (count - 1) as u8))
    }
}

/// Text of a sequence of values, one after the other.
pub open spec fn data_seq_text(values: Seq<Data>) -> Seq<char>
    decreases values.len(),
{
    if values.len() == 0 {
        Seq::empty()
    } else {
        data_seq_text(values.drop_last()) + bits_text(
            values.last().value,
            values.last().size as nat,
        )
    }
}

impl Data {
    /// The value as text, one square per bit, lowest bit first.
    pub fn to_string(&self) -> (s: String)
        requires
            (self.size as u32) <= usize::BITS,
        ensures
            s@ == bits_text(self.value, self.size as nat),
    {
        let mut s = String::new();
        let mut i: u8 = 0;
        while i < self.size
            invariant
                i <= self.size,
                (self.size as u32) <= usize::BITS,
                s@ == bits_text(self.value, i as nat),
            decreases self.size - i,
        {
            let v = self.value;
            assert(((v >> i) & 1usize == 1usize) || ((v >> i) & 1usize == 0usize)) by (bit_vector);
            if (v >> i) & 1 == 1 {
                s.append("🟩");
            } else {
                s.append("⬛");
            }
            i = i + 1;
        }
        s
    }

    /// All values as text, one after the other.
    pub fn show_vec(values: &Vec<Data>) -> (s: String)
        requires
            forall|k: int| 0 <= k < values.len() ==> (#[trigger] values[k].size as u32) <= usize::BITS,
        ensures
            s@ == data_seq_text(values@),
    {
        let mut s = String::new();
        let mut k: usize = 0;
        while k < values.len()
            invariant
                k <= values.len(),
                forall|j: int| 0 <= j < values.len() ==> (#[trigger] values[j].size as u32) <= usize::BITS,
                s@ == data_seq_text(values@.take(k as int)),
            decreases values.len() - k,
        {
            let t = values[k].to_string();
            s.append(t.as_str());
            assert(values@.take(k as int + 1).drop_last() == values@.take(k as int));
            k = k + 1;
        }
        assert(values@.take(values.len() as int) == values@);
        s
    }
}


/// Below the width, each bit of `a & b`, `a | b`, `a ^ b` and `!a` is the
/// and, or, xor of the operands' bits and the negation of `a`'s bit; at and
/// above the width every bit of each result is clear.
pub proof fn lemma_bitwise_ops_per_bit(a: usize, b: usize, size: u8, i: u8)
    requires
        (size as u32) < usize::BITS,
        (i as u32) < usize::BITS,
    ensures
        i < size ==> bit_of(Data::masked(a & b, size).value, i) == (bit_of(a, i) && bit_of(b, i)),
        i < size ==> bit_of(Data::masked(a | b, size).value, i) == (bit_of(a, i) || bit_of(b, i)),
        i < size ==> bit_of(Data::masked(a ^ b, size).value, i) == (bit_of(a, i) != bit_of(b, i)),
        i < size ==> bit_of(Data::masked(!a, size).value, i) == !bit_of(a, i),
        i >= size ==> !bit_of(Data::masked(a & b, size).value, i),
        i >= size ==> !bit_of(Data::masked(a | b, size).value, i),
        i >= size ==> !bit_of(Data::masked(a ^ b, size).value, i),
        i >= size ==> !bit_of(Data::masked(!a, size).value, i),
{
    let m = ((1usize << size) - 1usize) as usize;
    if i < size {
        assert((((a & b) & m) >> i) & 1usize == 1usize
            <==> ((a >> i) & 1usize == 1usize && (b >> i) & 1usize == 1usize)) by (bit_vector)
            requires m == ((1usize << size) - 1usize) as usize, i < size, (size as u32) < usize::BITS;
        assert((((a | b) & m) >> i) & 1usize == 1usize
            <==> ((a >> i) & 1usize == 1usize || (b >> i) & 1usize == 1usize)) by (bit_vector)
            requires m == ((1usize << size) - 1usize) as usize, i < size, (size as u32) < usize::BITS;
        assert((((a ^ b) & m) >> i) & 1usize == 1usize
            <==> (((a >> i) & 1usize == 1usize) != ((b >> i) & 1usize == 1usize))) by (bit_vector)
            requires m == ((1usize << size) - 1usize) as usize, i < size, (size as u32) < usize::BITS;
        assert((((!a) & m) >> i) & 1usize == 1usize <==> !((a >> i) & 1usize == 1usize)) by (bit_vector)
            requires m == ((1usize << size) - 1usize) as usize, i < size, (size as u32) < usize::BITS;
    }
    lemma_mask_clears_high_bits(a & b, size, i);
    lemma_mask_clears_high_bits(a | b, size, i);
    lemma_mask_clears_high_bits(a ^ b, size, i);
    lemma_mask_clears_high_bits(!a, size, i);
}

proof fn lemma_mask_clears_high_bits(x: usize, size: u8, i: u8)
    requires
        (size as u32) < usize::BITS,
        (i as u32) < usize::BITS,
    ensures
        i >= size ==> !bit_of(x & low_mask(size), i),
{
    assert(i >= size ==> !(((x & (((1usize << size) - 1usize) as usize)) >> i) & 1usize == 1usize)) by (bit_vector)
        requires (size as u32) < usize::BITS, (i as u32) < usize::BITS;
}

/// Every result of a bitwise operation fits in its width.
pub proof fn lemma_masked_fits(bits: usize, size: u8)
    requires
        (size as u32) < usize::BITS,
    ensures
        Data::masked(bits, size).fits(),
{
    assert((bits & (((1usize << size) - 1usize) as usize)) & !(((1usize << size) - 1usize) as usize) == 0usize) by (bit_vector)
        requires (size as u32) < usize::BITS;
}

/// Negating a value that fits in its width twice gives the value back.
pub proof fn lemma_not_involutive(a: Data)
    requires
        a.fits(),
    ensures
        Data::masked(!Data::masked(!a.value, a.size).value, a.size) == a,
{
    let v = a.value;
    let size = a.size;
    assert((!((!v) & (((1usize << size) - 1usize) as usize))) & (((1usize << size) - 1usize) as usize) == v) by (bit_vector)
        requires
            (size as u32) < usize::BITS,
            v & !(((1usize << size) - 1usize) as usize) == 0usize;
}

/// De Morgan: the negation of an `and` is the `or` of the negations, and the
/// negation of an `or` is the `and` of the negations.
pub proof fn lemma_de_morgan(a: usize, b: usize, size: u8)
    requires
        (size as u32) < usize::BITS,
    ensures
        Data::masked(!Data::masked(a & b, size).value, size) == Data::masked(
            Data::masked(!a, size).value | Data::masked(!b, size).value,
            size,
        ),
        Data::masked(!Data::masked(a | b, size).value, size) == Data::masked(
            Data::masked(!a, size).value & Data::masked(!b, size).value,
            size,
        ),
{
    let m = ((1usize << size) - 1usize) as usize;
    assert((!((a & b) & m)) & m == (((!a) & m) | ((!b) & m)) & m) by (bit_vector);
    assert((!((a | b) & m)) & m == (((!a) & m) & ((!b) & m)) & m) by (bit_vector);
}

/// `&`, `|` and `^` do not depend on the order of their operands.
pub proof fn lemma_bitwise_commutative(a: usize, b: usize, size: u8)
    ensures
        Data::masked(a & b, size) == Data::masked(b & a, size),
        Data::masked(a | b, size) == Data::masked(b | a, size),
        Data::masked(a ^ b, size) == Data::masked(b ^ a, size),
{
    assert(a & b == b & a) by (bit_vector);
    assert(a | b == b | a) by (bit_vector);
    assert(a ^ b == b ^ a) by (bit_vector);
}

/// After `set_bit_at(index, value)`, `get_bit_at(index)` gives `value` back and
/// every other bit is what it was.
pub proof fn lemma_set_bit_at_then_get(old_value: usize, index: u8, value: bool, other: u8)
    requires
        (index as u32) < usize::BITS,
        (other as u32) < usize::BITS,
    ensures
        bit_of(
            if value { old_value | (1usize << index) } else { old_value & !(1usize << index) },
            index,
        ) == value,
        other != index ==> bit_of(
            if value { old_value | (1usize << index) } else { old_value & !(1usize << index) },
            other,
        ) == bit_of(old_value, other),
{
    assert(((old_value | (1usize << index)) >> index) & 1usize == 1usize) by (bit_vector)
        requires (index as u32) < usize::BITS;
    assert(!(((old_value & !(1usize << index)) >> index) & 1usize == 1usize)) by (bit_vector)
        requires (index as u32) < usize::BITS;
    assert(other != index ==> ((((old_value | (1usize << index)) >> other) & 1usize == 1usize)
        <==> ((old_value >> other) & 1usize == 1usize))) by (bit_vector)
        requires (index as u32) < usize::BITS, (other as u32) < usize::BITS;
    assert(other != index ==> ((((old_value & !(1usize << index)) >> other) & 1usize == 1usize)
        <==> ((old_value >> other) & 1usize == 1usize))) by (bit_vector)
        requires (index as u32) < usize::BITS, (other as u32) < usize::BITS;
}

/// Setting or clearing bit `n` of `v` changes bit `n` alone.
pub proof fn lemma_one_bit_changed(v: usize, n: usize, j: usize)
    by (bit_vector)
    requires
        n < usize::BITS,
        j < usize::BITS,
    ensures
        ((v | (1usize << n)) >> j) & 1usize == if j == n { 1usize } else { (v >> j) & 1usize },
        ((v & !(1usize << n)) >> j) & 1usize == if j == n { 0usize } else { (v >> j) & 1usize },
        ((v | (0usize << n)) >> j) & 1usize == (v >> j) & 1usize,
        (0usize >> j) & 1usize == 0usize,
{
}

/// Masking `v` to its low `s` bits keeps exactly its bits below `s`, and
/// inverting it flips each of them.
pub proof fn lemma_low_bits(v: usize, s: u8, j: usize)
    by (bit_vector)
    requires
        (s as u32) < usize::BITS,
        j < usize::BITS,
    ensures
        (((v & low_mask(s)) >> j) & 1usize == 1usize) == (j < s && (v >> j) & 1usize == 1usize),
        (((!v & low_mask(s)) >> j) & 1usize == 1usize) == (j < s && (v >> j) & 1usize == 0usize),
        (v >> j) & 1usize == 1usize || (v >> j) & 1usize == 0usize,
{
}

/// `one_bit_changed`, with the bit given as a `u8`.
pub proof fn lemma_one_bit_changed_at(v: usize, n: u8, j: usize)
    by (bit_vector)
    requires
        (n as u32) < usize::BITS,
        j < usize::BITS,
    ensures
        ((v | (1usize << n)) >> j) & 1usize == if j == n as usize { 1usize } else { (v >> j) & 1usize },
        ((v & !(1usize << n)) >> j) & 1usize == if j == n as usize { 0usize } else { (v >> j) & 1usize },
{
}

/// On one bit, `&`, `|` and `!` masked to one bit act on the low bits.
pub proof fn lemma_low_bit_ops(a: usize, x: usize)
    by (bit_vector)
    requires
        a == 0 || a == 1,
    ensures
        (a & x) & low_mask(1) == if a == 1 && x & 1usize == 1usize { 1usize } else { 0usize },
        (a | x) & low_mask(1) == if a == 1 || x & 1usize == 1usize { 1usize } else { 0usize },
        !a & low_mask(1) == if a == 1 { 0usize } else { 1usize },
{
}

/// Masking `a ^ x` to its low `s` bits gives, below `s`, the bits on which
/// `a` and `x` differ.
pub proof fn lemma_low_bits_xor(a: usize, x: usize, s: u8, j: usize)
    by (bit_vector)
    requires
        (s as u32) < usize::BITS,
        j < usize::BITS,
    ensures
        ((((a ^ x) & low_mask(s)) >> j) & 1usize == 1usize) == (j < s && (((a >> j) & 1usize == 1usize) != ((x >> j)
            & 1usize == 1usize))),
{
}

} // verus!
