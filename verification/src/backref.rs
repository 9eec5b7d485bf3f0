//! Back-references: copying a run of bytes that was produced earlier to the
//! end of the output.
//!
//! The run is copied byte by byte, so that it may reach into the bytes that
//! the copy itself appends: a reference one byte back of length five repeats
//! the last byte five times.

use vstd::prelude::*;

verus! {

/// `out` extended by `length` bytes, each a copy of the byte that lies
/// `distance` bytes before it.
pub open spec fn copy_back(out: Seq<u8>, distance: int, length: nat) -> Seq<u8>
    decreases length,
{
    if length == 0 {
        out
    } else {
        copy_back(out.push(out[out.len() - distance]), distance, (length - 1) as nat)
    }
}

/// Where `data` repeats itself at `pos` with period `distance` for
/// `length` bytes, the copy rebuilds it: from the first `pos` bytes it
/// makes the first `pos + length`.
pub proof fn lemma_copy_back_rebuilds(data: Seq<u8>, pos: int, distance: int, length: nat)
    requires
        1 <= distance <= pos,
        pos + length <= data.len(),
        forall|k: int| 0 <= k < length ==> #[trigger] data[pos + k] == data[pos + k - distance],
    ensures
        copy_back(data.take(pos), distance, length) == data.take(pos + length),
    decreases length,
{
    if length > 0 {
        let out = data.take(pos);
        let next = out.push(out[out.len() - distance]);
        assert(data[pos + 0] == data[pos + 0 - distance]);
        assert(next =~= data.take(pos + 1));
        assert forall|k: int| 0 <= k < length - 1 implies #[trigger] data[pos + 1 + k] == data[pos
            + 1 + k - distance] by {
            assert(data[pos + (k + 1)] == data[pos + (k + 1) - distance]);
        }
        lemma_copy_back_rebuilds(data, pos + 1, distance, (length - 1) as nat);
    } else {
        assert(data.take(pos) =~= data.take(pos + length));
    }
}

/// Appends to `out` a copy of the `length` bytes that start `distance`
/// bytes before its end.
pub fn copy_back_into(out: &mut Vec<u8>, distance: usize, length: usize)
    requires
        1 <= distance <= old(out).len(),
    ensures
        final(out)@ == copy_back(old(out)@, distance as int, length as nat),
{
    let mut copied: usize = 0;
    while copied < length
        invariant
            copied <= length,
            1 <= distance <= out.len(),
            copy_back(old(out)@, distance as int, length as nat) == copy_back(
                out@,
                distance as int,
                (length - copied) as nat,
            ),
        decreases length - copied,
    {
        let byte = out[out.len() - distance];
        out.push(byte);
        copied += 1;
    }
}

} // verus!
