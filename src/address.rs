use vstd::prelude::*;
use vstd::arithmetic::div_mod::{lemma_fundamental_div_mod, lemma_mod_multiples_basic};
use crate::type_signature::TypeSignature;

verus! {

/// The top of the 32-bit wasm address space, where placement starts.
pub const ADDRESS_TOP: u32 = 0xFFFF_FFFF;

/// A type and the address range reserved for it in wasm memory.
///
/// Ranges of different types never overlap, so a memory access can be traced
/// back to the type it belongs to.
pub struct TypeAddress<'a> {
    pub signature: &'a TypeSignature,
    pub address: core::ops::Range<u32>,
}

/// An alignment that a resource may have: a power of two no larger than 128.
pub open spec fn is_accepted_align(align: int) -> bool {
    align == 1 || align == 2 || align == 4 || align == 8 || align == 16 || align == 32
        || align == 64 || align == 128
}

/// The layout rule for a resource type: a positive size that is a multiple of
/// an accepted alignment.
pub open spec fn layout_accepted(size: int, align: int) -> bool {
    size > 0 && align > 0 && is_accepted_align(align) && size % align == 0
}

/// Whether a signature gets an address when the free space ends at `cursor`:
/// its layout is known and accepted, and it fits below the cursor.
pub open spec fn placeable(sig: TypeSignature, cursor: int) -> bool {
    &&& sig.spec_size() is Some
    &&& sig.spec_align() is Some
    &&& layout_accepted(sig.spec_size()->0 as int, sig.spec_align()->0 as int)
    &&& sig.spec_size()->0 <= cursor
}

/// The low end of a range of `size` bytes placed under `cursor` and rounded
/// down to a multiple of `align`.
pub open spec fn placed_low(cursor: int, size: int, align: int) -> int {
    (cursor - size) - (cursor - size) % align
}

/// The ranges given to `sigs[i..]` with free space below `cursor`, each as
/// (index into `sigs`, low end, high end), in input order.
pub open spec fn placements_from(sigs: Seq<TypeSignature>, i: int, cursor: int) -> Seq<(int, int, int)>
    decreases sigs.len() - i,
{
    if i < 0 || i >= sigs.len() {
        Seq::empty()
    } else if placeable(sigs[i], cursor) {
        let size = sigs[i].spec_size()->0 as int;
        let lo = placed_low(cursor, size, sigs[i].spec_align()->0 as int);
        seq![(i, lo, lo + size)] + placements_from(sigs, i + 1, lo)
    } else {
        placements_from(sigs, i + 1, cursor)
    }
}

/// The ranges given to a sequence of signatures, packed downward from the top
/// of the address space.
pub open spec fn placements(sigs: Seq<TypeSignature>) -> Seq<(int, int, int)> {
    placements_from(sigs, 0, ADDRESS_TOP as int)
}

proof fn lemma_round_down(x: int, a: int)
    requires
        x >= 0,
        a > 0,
    ensures
        0 <= x - x % a <= x,
        (x - x % a) % a == 0,
{
    lemma_fundamental_div_mod(x, a);
    assert(x - x % a == (x / a) * a) by (nonlinear_arith)
        requires x == a * (x / a) + x % a;
    lemma_mod_multiples_basic(x / a, a);
    assert(0 <= x / a) by (nonlinear_arith)
        requires x >= 0, a > 0;
    assert(0 <= (x / a) * a) by (nonlinear_arith)
        requires x / a >= 0, a > 0;
}

/// Every range lies in `[0, cursor]`, belongs to a placeable signature of
/// `sigs[i..]`, has its size and alignment, and lies wholly below every range
/// before it.
proof fn lemma_placements_from(sigs: Seq<TypeSignature>, i: int, cursor: int)
    requires
        0 <= i,
        cursor >= 0,
    ensures
        forall|j: int|
            #![trigger placements_from(sigs, i, cursor)[j]]
            0 <= j < placements_from(sigs, i, cursor).len() ==> {
                let e = placements_from(sigs, i, cursor)[j];
                &&& i <= e.0 < sigs.len()
                &&& sigs[e.0].spec_size() is Some
                &&& sigs[e.0].spec_align() is Some
                &&& layout_accepted(sigs[e.0].spec_size()->0 as int, sigs[e.0].spec_align()->0 as int)
                &&& 0 <= e.1 < e.2 <= cursor
                &&& e.2 - e.1 == sigs[e.0].spec_size()->0
                &&& e.1 % (sigs[e.0].spec_align()->0 as int) == 0
            },
        forall|j: int, k: int|
            0 <= j < k < placements_from(sigs, i, cursor).len() ==> placements_from(sigs, i, cursor)[k].2
                <= #[trigger] placements_from(sigs, i, cursor)[j].1 && placements_from(sigs, i, cursor)[j].0
                < #[trigger] placements_from(sigs, i, cursor)[k].0,
    decreases sigs.len() - i,
{
    if i >= sigs.len() {
    } else if placeable(sigs[i], cursor) {
        let size = sigs[i].spec_size()->0 as int;
        let align = sigs[i].spec_align()->0 as int;
        let lo = placed_low(cursor, size, align);
        lemma_round_down(cursor - size, align);
        lemma_placements_from(sigs, i + 1, lo);
        let rest = placements_from(sigs, i + 1, lo);
        let all = placements_from(sigs, i, cursor);
        assert(all == seq![(i, lo, lo + size)] + rest);
        assert forall|j: int| 0 < j < all.len() implies #[trigger] all[j] == rest[j - 1] by {}
        assert forall|j: int, k: int| 0 <= j < k < all.len() implies all[k].2
            <= #[trigger] all[j].1 && all[j].0 < #[trigger] all[k].0 by {
            if j > 0 {
                assert(all[j] == rest[j - 1]);
                assert(all[k] == rest[k - 1]);
            } else {
                assert(all[k] == rest[k - 1]);
            }
        }
    } else {
        lemma_placements_from(sigs, i + 1, cursor);
    }
}

/// Each range that the allocator gives is aligned to its type's alignment and
/// exactly as long as its type's size.
pub proof fn lemma_placement_fits_type(sigs: Seq<TypeSignature>, j: int)
    requires
        0 <= j < placements(sigs).len(),
    ensures
        ({
            let e = placements(sigs)[j];
            let sig = sigs[e.0];
            &&& 0 <= e.0 < sigs.len()
            &&& sig.spec_size() is Some && sig.spec_align() is Some
            &&& e.1 % (sig.spec_align()->0 as int) == 0
            &&& e.2 - e.1 == sig.spec_size()->0 as int
        }),
{
    lemma_placements_from(sigs, 0, ADDRESS_TOP as int);
    let e = placements(sigs)[j];
    assert(placements(sigs)[j] == placements_from(sigs, 0, ADDRESS_TOP as int)[j]);
}

/// Ranges given to two different types do not overlap.
pub proof fn lemma_placements_disjoint(sigs: Seq<TypeSignature>, j: int, k: int)
    requires
        0 <= j < placements(sigs).len(),
        0 <= k < placements(sigs).len(),
        j != k,
    ensures
        placements(sigs)[j].2 <= placements(sigs)[k].1 || placements(sigs)[k].2 <= placements(sigs)[j].1,
{
    lemma_placements_from(sigs, 0, ADDRESS_TOP as int);
    let p = placements_from(sigs, 0, ADDRESS_TOP as int);
    if j < k {
        assert(p[k].2 <= p[j].1 && p[j].0 < p[k].0);
    } else {
        assert(p[j].2 <= p[k].1 && p[k].0 < p[j].0);
    }
}

/// Ranges follow the input order and go downward: a later range never ends
/// above an earlier one.
pub proof fn lemma_placements_descend(sigs: Seq<TypeSignature>, j: int)
    requires
        0 <= j,
        j + 1 < placements(sigs).len(),
    ensures
        placements(sigs)[j].2 >= placements(sigs)[j + 1].2,
        placements(sigs)[j].0 < placements(sigs)[j + 1].0,
{
    lemma_placements_from(sigs, 0, ADDRESS_TOP as int);
    let p = placements_from(sigs, 0, ADDRESS_TOP as int);
    assert(p[j + 1].2 <= p[j].1 && p[j].0 < p[j + 1].0);
    assert(p[j].1 < p[j].2);
}

/// Whether `align` is a power of two no larger than 128.
fn accepted_align(align: usize) -> (r: bool)
    ensures
        r == is_accepted_align(align as int),
{
    align == 1 || align == 2 || align == 4 || align == 8 || align == 16 || align == 32 || align == 64
        || align == 128
}

impl<'a> TypeAddress<'a> {
    /// Assigns each signature with a known, accepted layout its own address
    /// range, packing downward from the top of the 32-bit address space in
    /// input order. Signatures whose layout is unknown or rejected, or that no
    /// longer fit, get no range.
    pub fn from_type_signatures(types: &'a Vec<TypeSignature>) -> (r: Vec<TypeAddress<'a>>)
        ensures
            r@.len() == placements(types@).len(),
            forall|j: int|
                0 <= j < r@.len() ==> {
                    let e = #[trigger] placements(types@)[j];
                    &&& *r@[j].signature == types@[e.0]
                    &&& r@[j].address.start as int == e.1
                    &&& r@[j].address.end as int == e.2
                },
    {
        let mut out: Vec<TypeAddress<'a>> = Vec::new();
        let mut cursor: u32 = ADDRESS_TOP;
        let ghost mut done: Seq<(int, int, int)> = Seq::empty();
        let mut i: usize = 0;
        while i < types.len()
            invariant
                0 <= i <= types@.len(),
                placements(types@) == done + placements_from(types@, i as int, cursor as int),
                out@.len() == done.len(),
                forall|j: int|
                    0 <= j < out@.len() ==> {
                        let e = #[trigger] done[j];
                        &&& 0 <= e.0 < types@.len()
                        &&& *out@[j].signature == types@[e.0]
                        &&& out@[j].address.start as int == e.1
                        &&& out@[j].address.end as int == e.2
                    },
            decreases types@.len() - i,
        {
            let ty = &types[i];
            match (ty.size(), ty.align()) {
                (Some(size), Some(align)) => {
                    if size > 0 && align > 0 && accepted_align(align) && size % align == 0
                        && size <= cursor as usize {
                        let ghost before = cursor as int;
                        let s = size as u32;
                        let a = align as u32;
                        cursor = cursor - s;
                        cursor = cursor - cursor % a;
                        proof {
                            lemma_round_down(before - size, align as int);
                            let e = (i as int, cursor as int, cursor as int + size as int);
                            assert(placements_from(types@, i as int, before) == seq![e]
                                + placements_from(types@, i as int + 1, cursor as int));
                            assert(done + placements_from(types@, i as int, before) == done.push(e)
                                + placements_from(types@, i as int + 1, cursor as int));
                            done = done.push(e);
                        }
                        out.push(TypeAddress { signature: ty, address: cursor..cursor + s });
                    }
                },
                _ => {},
            }
            i += 1;
        }
        assert(placements_from(types@, i as int, cursor as int) =~= Seq::empty());
        assert(done + Seq::<(int, int, int)>::empty() =~= done);
        out
    }
}

} // verus!
