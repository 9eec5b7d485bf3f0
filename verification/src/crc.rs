//! CRC-32 as used by gzip: reflected polynomial `0xEDB88320`, with the running
//! value complemented on the way in and on the way out.

use vstd::prelude::*;

verus! {

/// The reflected CRC-32 polynomial.
pub const CRC_POLYNOMIAL: u32 = 0xedb8_8320u32;

/// One step of the bitwise CRC: shift one bit out of `c`, and fold the
/// polynomial in when that bit was set.
pub open spec fn crc_shift(c: u32) -> u32 {
    if c & 1 != 0 {
        CRC_POLYNOMIAL ^ (c >> 1)
    } else {
        c >> 1
    }
}

/// Eight steps of the bitwise CRC: the effect of one whole byte.
pub open spec fn crc_shift8(c: u32) -> u32 {
    crc_shift(crc_shift(crc_shift(crc_shift(crc_shift(crc_shift(crc_shift(crc_shift(c))))))))
}

/// The remainder register after `bytes` have been fed into the register `c`,
/// without any complementing.
pub open spec fn crc_fold(c: u32, bytes: Seq<u8>) -> u32
    decreases bytes.len(),
{
    if bytes.len() == 0 {
        c
    } else {
        crc_shift8(crc_fold(c, bytes.drop_last()) ^ (bytes.last() as u32))
    }
}

/// The running checksum `crc` extended by `bytes`.
pub open spec fn crc_update(crc: u32, bytes: Seq<u8>) -> u32 {
    crc_fold(crc ^ 0xffff_ffffu32, bytes) ^ 0xffff_ffffu32
}

/// The CRC-32 of `bytes`.
pub open spec fn crc32(bytes: Seq<u8>) -> u32 {
    crc_update(0, bytes)
}

/// The table-driven step equals eight bitwise steps: the low byte of the
/// register selects the table entry, the rest is shifted down.
proof fn lemma_table_step(c: u32, b: u8)
    ensures
        crc_shift8(((c ^ (b as u32)) & 0xff) as u32) ^ (c >> 8) == crc_shift8(c ^ (b as u32)),
{
    let x: u32 = c ^ (b as u32);
    assert(c >> 8 == x >> 8) by (bit_vector)
        requires
            x == c ^ (b as u32),
    ;
    assert(crc_shift8((x & 0xff) as u32) ^ (x >> 8) == crc_shift8(x)) by (bit_vector);
}

/// Feeding `a + b` is feeding `a`, then `b`.
pub proof fn lemma_crc_fold_concat(c: u32, a: Seq<u8>, b: Seq<u8>)
    ensures
        crc_fold(c, a + b) == crc_fold(crc_fold(c, a), b),
    decreases b.len(),
{
    if b.len() == 0 {
        assert(a + b =~= a);
    } else {
        lemma_crc_fold_concat(c, a, b.drop_last());
        assert((a + b).drop_last() =~= a + b.drop_last());
        assert((a + b).last() == b.last());
    }
}

/// A checksum can be computed piecewise: updating with `a + b` is updating
/// with `a` and then updating the result with `b`.
pub proof fn lemma_crc_update_concat(crc: u32, a: Seq<u8>, b: Seq<u8>)
    ensures
        crc_update(crc, a + b) == crc_update(crc_update(crc, a), b),
{
    lemma_crc_fold_concat(crc ^ 0xffff_ffffu32, a, b);
    let r = crc_fold(crc ^ 0xffff_ffffu32, a);
    assert((r ^ 0xffff_ffffu32) ^ 0xffff_ffffu32 == r) by (bit_vector);
}

/// A CRC-32 calculator with a lazily built table of the remainders of all
/// 8-bit messages.
pub struct CRC32 {
    crc_table: [u32; 256],
    crc_table_computed: bool,
}

impl CRC32 {
    #[verifier::type_invariant]
    spec fn table_inv(self) -> bool {
        self.crc_table_computed ==> forall|n: int|
            0 <= n < 256 ==> #[trigger] self.crc_table[n] == crc_shift8(n as u32)
    }

    /// Whether the table has been built yet.
    pub closed spec fn table_computed(self) -> bool {
        self.crc_table_computed
    }

    /// A calculator whose table is not built yet.
    pub fn new() -> (res: CRC32)
        ensures
            !res.table_computed(),
    {
        CRC32 { crc_table: [0u32; 256], crc_table_computed: false }
    }

    /// Fills the table: entry `n` is the remainder of the one-byte message `n`.
    fn make_crc_table(&mut self)
        ensures
            final(self).table_computed(),
    {
        let mut table: [u32; 256] = [0u32; 256];
        let mut n: usize = 0;
        while n < 256
            invariant
                n <= 256,
                forall|k: int| 0 <= k < n ==> #[trigger] table[k] == crc_shift8(k as u32),
            decreases 256 - n,
        {
            let mut c: u32 = n as u32;
            let mut k: usize = 0;
            let ghost c0 = c;
            let ghost mut steps: Seq<u32> = seq![c];
            while k < 8
                invariant
                    k <= 8,
                    steps.len() == k + 1,
                    steps[0] == c0,
                    steps[k as int] == c,
                    forall|j: int| 1 <= j <= k ==> #[trigger] steps[j] == crc_shift(steps[j - 1]),
                decreases 8 - k,
            {
                if c & 1 != 0 {
                    c = CRC_POLYNOMIAL ^ (c >> 1);
                } else {
                    c = c >> 1;
                }
                proof {
                    steps = steps.push(c);
                }
                k += 1;
            }
            assert(c == crc_shift8(c0)) by {
                assert(steps[1] == crc_shift(steps[0]));
                assert(steps[2] == crc_shift(steps[1]));
                assert(steps[3] == crc_shift(steps[2]));
                assert(steps[4] == crc_shift(steps[3]));
                assert(steps[5] == crc_shift(steps[4]));
                assert(steps[6] == crc_shift(steps[5]));
                assert(steps[7] == crc_shift(steps[6]));
                assert(steps[8] == crc_shift(steps[7]));
            }
            table[n] = c;
            n += 1;
        }
        self.crc_table = table;
        self.crc_table_computed = true;
    }

    /// Extends the running checksum `crc` by the bytes of `buf`. The running
    /// value starts at zero; complementing on the way in and out is done
    /// here. Builds the table on first use.
    pub fn update_crc(&mut self, crc: u32, buf: &[u8]) -> (res: u32)
        ensures
            res == crc_update(crc, buf@),
            final(self).table_computed(),
    {
        let mut c: u32 = crc ^ 0xffff_ffffu32;
        if !self.crc_table_computed {
            self.make_crc_table();
        }
        proof {
            use_type_invariant(&*self);
        }
        let mut n: usize = 0;
        while n < buf.len()
            invariant
                n <= buf.len(),
                self.crc_table_computed,
                forall|k: int| 0 <= k < 256 ==> #[trigger] self.crc_table[k] == crc_shift8(k as u32),
                c == crc_fold(crc ^ 0xffff_ffffu32, buf@.take(n as int)),
            decreases buf.len() - n,
        {
            let xored: u32 = c ^ (buf[n] as u32);
            let index: usize = (xored & 0xff) as usize;
            proof {
                let b = buf[n as int];
                assert(xored & 0xff < 256) by (bit_vector);
                lemma_table_step(c, b);
                assert(buf@.take(n + 1).drop_last() =~= buf@.take(n as int));
                assert(buf@.take(n + 1).last() == b);
            }
            c = self.crc_table[index] ^ (c >> 8);
            n += 1;
        }
        assert(buf@.take(n as int) =~= buf@);
        c ^ 0xffff_ffffu32
    }

    /// The CRC-32 of the bytes of `buf`.
    pub fn crc(&mut self, buf: &[u8]) -> (res: u32)
        ensures
            res == crc32(buf@),
            final(self).table_computed(),
    {
        self.update_crc(0u32, buf)
    }
}

} // verus!
