//! How a file is cut into parts: part `id` holds the octets from offset
//! `id * part_size` on, `part_size` of them, or fewer at the end of the file.

use vstd::arithmetic::div_mod::lemma_fundamental_div_mod;
use vstd::prelude::*;

verus! {

/// The number of parts that `length` octets are cut into: the full parts,
/// and one more for what is left over.
pub open spec fn parts_of(length: nat, part_size: nat) -> nat {
    if length % part_size == 0 {
        length / part_size
    } else {
        length / part_size + 1
    }
}

/// The octets of part `id` of `source`.
pub open spec fn part_of(source: Seq<u8>, part_size: nat, id: int) -> Seq<u8> {
    source.subrange(
        id * part_size,
        if (id + 1) * part_size <= source.len() {
            (id + 1) * part_size
        } else {
            source.len() as int
        },
    )
}

/// The number of parts that a file of `length` octets is cut into, or
/// `None` if they are more than a 32-bit count can hold.
pub fn part_count(length: u64, part_size: usize) -> (count: Option<u32>)
    requires
        part_size >= 1,
    ensures
        match count {
            Some(n) => n == parts_of(length as nat, part_size as nat),
            None => parts_of(length as nat, part_size as nat) > u32::MAX,
        },
{
    let size = part_size as u64;
    let full = length / size;
    let count = if length % size == 0 {
        full
    } else {
        proof {
            lemma_fundamental_div_mod(length as int, size as int);
            assert(full < u64::MAX) by (nonlinear_arith)
                requires
                    length == size * full + length % size,
                    0 < length % size < size,
                    length <= u64::MAX,
                    full >= 0,
            ;
        }
        full + 1
    };
    if count > u32::MAX as u64 {
        None
    } else {
        Some(count as u32)
    }
}

/// Every part of a file starts inside the file, and is no longer than a
/// part may be.
pub proof fn lemma_part_in_file(length: nat, part_size: nat, id: int)
    requires
        part_size >= 1,
        0 <= id < parts_of(length, part_size),
    ensures
        id * part_size < length,
        (id + 1) * part_size == id * part_size + part_size,
{
    lemma_fundamental_div_mod(length as int, part_size as int);
    let full = length as int / part_size as int;
    assert(id * part_size < length) by (nonlinear_arith)
        requires
            length == part_size * full + length % part_size,
            0 <= length % part_size < part_size,
            0 <= id,
            id < full || (id == full && length % part_size != 0),
    ;
    assert((id + 1) * part_size == id * part_size + part_size) by (nonlinear_arith);
}

/// Every octet of a file lies in exactly one part: the one whose id is the
/// offset divided by the length of a part.
pub proof fn lemma_offset_in_part(length: nat, part_size: nat, at: int)
    requires
        part_size >= 1,
        0 <= at < length,
    ensures
        0 <= at / (part_size as int) < parts_of(length, part_size),
        (at / (part_size as int)) * part_size <= at < (at / (part_size as int)) * part_size
            + part_size,
{
    let size = part_size as int;
    let id = at / size;
    lemma_fundamental_div_mod(at, size);
    lemma_fundamental_div_mod(length as int, size);
    let full = length as int / size;
    assert(id * size == size * id) by (nonlinear_arith);
    assert(0 <= id) by (nonlinear_arith)
        requires
            at == size * id + at % size,
            0 <= at % size < size,
            at >= 0,
    ;
    assert(id <= full) by (nonlinear_arith)
        requires
            at == size * id + at % size,
            0 <= at % size < size,
            length == size * full + (length as int) % size,
            0 <= (length as int) % size < size,
            at < length,
    ;
    if id == full {
        assert(size * id == size * full);
        assert((length as int) % size != 0);
    }
}

/// The ids below `n`.
pub open spec fn ids_below(n: nat) -> Set<u32> {
    Set::new(|id: u32| id < n)
}

/// There are `n` ids below `n`.
pub proof fn lemma_ids_below(n: nat)
    requires
        n <= u32::MAX + 1,
    ensures
        ids_below(n).finite(),
        ids_below(n).len() == n,
    decreases n,
{
    if n == 0 {
        assert(ids_below(n) =~= Set::<u32>::empty());
    } else {
        lemma_ids_below((n - 1) as nat);
        assert(ids_below(n) =~= ids_below((n - 1) as nat).insert((n - 1) as u32));
    }
}

} // verus!
