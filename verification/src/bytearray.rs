//! Byte strings with bit access.

use vstd::prelude::*;
use vstd::arithmetic::power2::{pow2, lemma2_to64};

verus! {

/// Bit `j` of the byte `b`, least significant first.
pub open spec fn bit_of(b: u8, j: int) -> bool {
    (b as int / pow2(j as nat) as int) % 2 == 1
}

/// Shifting a byte right by `j` and masking with 1 reads bit `j`.
pub proof fn lemma_shift_reads_bit(b: u8, j: u8)
    requires
        j < 8,
    ensures
        ((b >> j) & 1u8 == 1u8) == bit_of(b, j as int),
{
    lemma2_to64();
    if j == 0 {
        assert(((b >> 0u8) & 1u8 == 1u8) == ((b / 1u8) % 2u8 == 1u8)) by (bit_vector);
    } else if j == 1 {
        assert(((b >> 1u8) & 1u8 == 1u8) == ((b / 2u8) % 2u8 == 1u8)) by (bit_vector);
    } else if j == 2 {
        assert(((b >> 2u8) & 1u8 == 1u8) == ((b / 4u8) % 2u8 == 1u8)) by (bit_vector);
    } else if j == 3 {
        assert(((b >> 3u8) & 1u8 == 1u8) == ((b / 8u8) % 2u8 == 1u8)) by (bit_vector);
    } else if j == 4 {
        assert(((b >> 4u8) & 1u8 == 1u8) == ((b / 16u8) % 2u8 == 1u8)) by (bit_vector);
    } else if j == 5 {
        assert(((b >> 5u8) & 1u8 == 1u8) == ((b / 32u8) % 2u8 == 1u8)) by (bit_vector);
    } else if j == 6 {
        assert(((b >> 6u8) & 1u8 == 1u8) == ((b / 64u8) % 2u8 == 1u8)) by (bit_vector);
    } else {
        assert(((b >> 7u8) & 1u8 == 1u8) == ((b / 128u8) % 2u8 == 1u8)) by (bit_vector);
    }
}

/// Bit `i` of the byte string `s`: bit `i mod 8` of byte `i / 8`.
pub open spec fn bit_at(s: Seq<u8>, i: int) -> bool {
    bit_of(s[i / 8], i % 8)
}

/// The byte strings of `items`, one after the other.
pub open spec fn concat_seq(items: Seq<Seq<u8>>) -> Seq<u8>
    decreases items.len(),
{
    if items.len() == 0 {
        Seq::empty()
    } else {
        concat_seq(items.drop_last()) + items.last()
    }
}

/// An ordered sequence of bytes.
#[derive(Debug, PartialEq, Eq)]
pub struct ByteArray {
    /// Array of bytes
    pub data: Vec<u8>,
}

impl View for ByteArray {
    type V = Seq<u8>;

    open spec fn view(&self) -> Seq<u8> {
        self.data@
    }
}

impl Clone for ByteArray {
    fn clone(&self) -> (r: Self)
        ensures
            r@ == self@,
    {
        ByteArray::from_bytes(self.data.as_slice())
    }
}

impl ByteArray {
    /// The empty byte string.
    pub fn new() -> (r: Self)
        ensures
            r@ == Seq::<u8>::empty(),
    {
        ByteArray { data: Vec::new() }
    }

    /// The byte string that holds `bytes`.
    pub fn from_bytes(bytes: &[u8]) -> (r: Self)
        ensures
            r@ == bytes@,
    {
        let mut data: Vec<u8> = Vec::new();
        let n: usize = bytes.len();
        let mut i: usize = 0;
        while i < n
            invariant
                i <= n,
                n == bytes@.len(),
                data@ == bytes@.subrange(0, i as int),
            decreases n - i,
        {
            data.push(bytes[i]);
            assert(data@ =~= bytes@.subrange(0, i + 1));
            i += 1;
        }
        assert(data@ =~= bytes@);
        ByteArray { data }
    }

    /// `len` bytes from the thread-local generator of the `rand` crate
    /// (`rand::thread_rng`, filled by `RngCore::fill_bytes`). Nothing is
    /// claimed of the bytes but their number.
    #[verifier::external_body]
    pub fn random(len: usize) -> (r: Self)
        ensures
            r@.len() == len,
    {
        let mut data = vec![0; len];
        rand::RngCore::fill_bytes(&mut rand::thread_rng(), &mut data);
        Self { data }
    }

    /// Overwrites every byte with zero; the length stays.
    pub fn zeroize(&mut self)
        ensures
            final(self)@ == Seq::new(old(self)@.len(), |i: int| 0u8),
    {
        let n: usize = self.data.len();
        let mut i: usize = 0;
        while i < n
            invariant
                i <= n,
                n == old(self)@.len(),
                self.data@.len() == n,
                forall|j: int| 0 <= j < i ==> self.data@[j] == 0u8,
            decreases n - i,
        {
            self.data.set(i, 0);
            i += 1;
        }
        assert(self@ =~= Seq::new(old(self)@.len(), |i: int| 0u8));
    }

    /// The number of bytes.
    pub fn len(&self) -> (r: usize)
        ensures
            r == self@.len(),
    {
        self.data.len()
    }

    /// This byte string followed by `other`.
    pub fn append(&self, other: &Self) -> (r: Self)
        ensures
            r@ == self@ + other@,
    {
        let mut data: Vec<u8> = Vec::new();
        let n: usize = self.data.len();
        let m: usize = other.data.len();
        let mut i: usize = 0;
        while i < n
            invariant
                i <= n,
                n == self@.len(),
                data@ == self@.subrange(0, i as int),
            decreases n - i,
        {
            data.push(self.data[i]);
            assert(data@ =~= self@.subrange(0, i + 1));
            i += 1;
        }
        let mut j: usize = 0;
        while j < m
            invariant
                j <= m,
                m == other@.len(),
                n == self@.len(),
                data@ == self@ + other@.subrange(0, j as int),
            decreases m - j,
        {
            assert(self@.subrange(0, n as int) =~= self@);
            data.push(other.data[j]);
            assert(data@ =~= self@ + other@.subrange(0, j + 1));
            j += 1;
        }
        assert(self@.subrange(0, n as int) =~= self@);
        assert(other@.subrange(0, m as int) =~= other@);
        assert(data@ =~= self@ + other@);
        ByteArray { data }
    }

    /// The byte strings of `items`, one after the other.
    pub fn concat(items: &[&Self]) -> (r: Self)
        ensures
            r@ == concat_seq(Seq::new(items@.len(), |i: int| items@[i]@)),
    {
        let ghost all = Seq::new(items@.len(), |i: int| items@[i]@);
        let mut acc = ByteArray::new();
        let n: usize = items.len();
        let mut i: usize = 0;
        while i < n
            invariant
                i <= n,
                n == items@.len(),
                all == Seq::new(items@.len(), |i: int| items@[i]@),
                acc@ == concat_seq(all.subrange(0, i as int)),
            decreases n - i,
        {
            proof {
                let next = all.subrange(0, i + 1);
                assert(next.drop_last() =~= all.subrange(0, i as int));
                assert(next.last() == items@[i as int]@);
            }
            acc = acc.append(items[i]);
            i += 1;
        }
        assert(all.subrange(0, n as int) =~= all);
        acc
    }

    /// Bit `pos`, counting from the least significant bit of the first byte.
    pub fn get_bit(&self, pos: usize) -> (r: bool)
        requires
            pos < 8 * self@.len(),
        ensures
            r == bit_at(self@, pos as int),
            r == ((self@[pos as int / 8] >> ((pos as int % 8) as u8)) & 1u8 == 1u8),
    {
        let byte_index: usize = pos / 8;
        let bit_in_byte: u8 = (pos % 8) as u8;
        proof {
            lemma_shift_reads_bit(self.data@[byte_index as int], bit_in_byte);
        }
        (self.data[byte_index] >> bit_in_byte) & 1u8 == 1u8
    }

    /// The bytes after the first `num`; empty where there are no more.
    pub fn skip(&self, num: usize) -> (r: Self)
        ensures
            r@ == (if num <= self@.len() {
                self@.subrange(num as int, self@.len() as int)
            } else {
                Seq::<u8>::empty()
            }),
    {
        let n: usize = self.data.len();
        let mut data: Vec<u8> = Vec::new();
        if num > n {
            return ByteArray { data };
        }
        let mut i: usize = num;
        while i < n
            invariant
                num <= i <= n,
                n == self@.len(),
                data@ == self@.subrange(num as int, i as int),
            decreases n - i,
        {
            data.push(self.data[i]);
            assert(data@ =~= self@.subrange(num as int, i + 1));
            i += 1;
        }
        ByteArray { data }
    }

    /// The first `n` bytes, and the rest.
    pub fn split_at(&self, n: usize) -> (r: (Self, Self))
        requires
            n <= self@.len(),
        ensures
            r.0@ == self@.subrange(0, n as int),
            r.1@ == self@.subrange(n as int, self@.len() as int),
    {
        let mut head: Vec<u8> = Vec::new();
        let mut i: usize = 0;
        while i < n
            invariant
                i <= n <= self@.len(),
                head@ == self@.subrange(0, i as int),
            decreases n - i,
        {
            head.push(self.data[i]);
            assert(head@ =~= self@.subrange(0, i + 1));
            i += 1;
        }
        (ByteArray { data: head }, self.skip(n))
    }
}

} // verus!
