//! Sets of board-table cells, stored as one bit per table index.
use vstd::prelude::*;
use bitvec::array::BitArray;
use bitvec::order::Lsb0;
use crate::hex::{axial_index, dir_of_index, index_axial, Axial, HDir};

verus! {

/// The number of cells in the board table.
pub const TABLE_SIZE: usize = 512;

/// A fixed array of `TABLE_SIZE` bits, kept in a `bitvec` bit-array.
#[verifier::external_body]
pub struct BitTable {
    bits: BitArray<[u64; 8], Lsb0>,
}

/// The bits of a table, lowest index first; only the first `TABLE_SIZE`
/// positions are meaningful.
pub uninterp spec fn table_bits(b: BitTable) -> Seq<bool>;

impl Clone for BitTable {
    /// A copy of the bit-array (`BitArray` over an array of `u64` is `Copy`).
    #[verifier::external_body]
    fn clone(&self) -> (b: BitTable)
        ensures
            forall|i: int| 0 <= i < TABLE_SIZE ==> #[trigger] table_bits(b)[i] == table_bits(*self)[i],
    {
        BitTable { bits: self.bits }
    }
}

impl BitTable {
    /// A table with every bit clear, from `BitArray::ZERO`.
    #[verifier::external_body]
    pub fn zeroed() -> (b: BitTable)
        ensures
            forall|i: int| 0 <= i < TABLE_SIZE ==> !#[trigger] table_bits(b)[i],
    {
        BitTable { bits: BitArray::ZERO }
    }

    /// Bit `i`, read through `BitSlice` indexing.
    #[verifier::external_body]
    pub fn get(&self, i: usize) -> (v: bool)
        requires
            i < TABLE_SIZE,
        ensures
            v == table_bits(*self)[i as int],
    {
        self.bits[i]
    }

    /// Writes bit `i` with `BitSlice::set`.
    #[verifier::external_body]
    pub fn set(&mut self, i: usize, v: bool)
        requires
            i < TABLE_SIZE,
        ensures
            table_bits(*final(self))[i as int] == v,
            forall|j: int|
                0 <= j < TABLE_SIZE && j != i ==> #[trigger] table_bits(*final(self))[j] == table_bits(
                    *old(self),
                )[j],
    {
        self.bits.set(i, v)
    }

    /// Clears every bit that `other` does not have, with `BitArray`'s `&=`.
    #[verifier::external_body]
    pub fn and_with(&mut self, other: &BitTable)
        ensures
            forall|i: int| 0 <= i < TABLE_SIZE ==> #[trigger] table_bits(*final(self))[i] == (table_bits(*old(self))[i]
                && table_bits(*other)[i]),
    {
        self.bits &= other.bits;
    }

    /// The indices of the set bits in increasing order, from `BitSlice::iter_ones`.
    #[verifier::external_body]
    pub fn iter_ones(&self) -> (v: Vec<usize>)
        ensures
            forall|k: int|
                0 <= k < v.len() ==> #[trigger] v[k] < TABLE_SIZE && table_bits(*self)[v[k] as int],
            forall|k1: int, k2: int| 0 <= k1 < k2 < v.len() ==> #[trigger] v[k1] < #[trigger] v[k2],
            forall|i: int|
                0 <= i < TABLE_SIZE && #[trigger] table_bits(*self)[i] ==> v@.contains(i as usize),
    {
        self.bits.iter_ones().collect()
    }
}

/// A set of cells of the board table.
pub struct SmallMesh {
    pub inner: BitTable,
}

impl View for SmallMesh {
    type V = Seq<bool>;

    /// One flag per table index.
    open spec fn view(&self) -> Seq<bool> {
        Seq::new(TABLE_SIZE as nat, |i: int| table_bits(self.inner)[i])
    }
}

/// Whether `a` lies inside the board table (its index is below `TABLE_SIZE`).
pub open spec fn valid_rel(a: Axial) -> bool {
    0 <= axial_index(a) < TABLE_SIZE
}

impl Clone for SmallMesh {
    fn clone(&self) -> (m: SmallMesh)
        ensures
            m@ == self@,
    {
        let m = SmallMesh { inner: self.inner.clone() };
        assert(m@ =~= self@);
        m
    }
}

impl SmallMesh {
    /// The empty set.
    pub fn new() -> (m: SmallMesh)
        ensures
            m@ == Seq::new(TABLE_SIZE as nat, |i: int| false),
    {
        let m = SmallMesh { inner: BitTable::zeroed() };
        assert(m@ =~= Seq::new(TABLE_SIZE as nat, |i: int| false));
        m
    }

    /// The set of the given cells.
    pub fn from_iter(it: &Vec<Axial>) -> (m: SmallMesh)
        requires
            forall|k: int| 0 <= k < it.len() ==> valid_rel(#[trigger] it[k]),
        ensures
            forall|i: int|
                0 <= i < TABLE_SIZE ==> (#[trigger] m@[i] <==> exists|k: int|
                    0 <= k < it.len() && axial_index(#[trigger] it[k]) == i),
    {
        let mut m = SmallMesh::new();
        let mut k: usize = 0;
        while k < it.len()
            invariant
                k <= it.len(),
                forall|k: int| 0 <= k < it.len() ==> valid_rel(#[trigger] it[k]),
                forall|i: int|
                    0 <= i < TABLE_SIZE ==> (#[trigger] m@[i] <==> exists|kk: int|
                        0 <= kk < k && axial_index(#[trigger] it[kk]) == i),
            decreases it.len() - k,
        {
            let ghost old_m = m@;
            m.add(it[k]);
            proof {
                assert forall|i: int| 0 <= i < TABLE_SIZE implies (#[trigger] m@[i] <==> exists|kk: int|
                    0 <= kk < k + 1 && axial_index(#[trigger] it[kk]) == i) by {
                    if m@[i] && i != axial_index(it[k as int]) {
                        assert(old_m[i]);
                    }
                    if i == axial_index(it[k as int]) {
                        assert(axial_index(it[k as int]) == i);
                    } else if exists|kk: int| 0 <= kk < k + 1 && axial_index(#[trigger] it[kk]) == i {
                        let kk = choose|kk: int| 0 <= kk < k + 1 && axial_index(#[trigger] it[kk]) == i;
                        assert(kk < k);
                    }
                }
            }
            k = k + 1;
        }
        m
    }

    /// Adds every cell of `other`.
    pub fn union_with(&mut self, other: &SmallMesh)
        ensures
            forall|i: int| 0 <= i < TABLE_SIZE ==> #[trigger] final(self)@[i] == (old(self)@[i] || other@[i]),
    {
        let ones = other.inner.iter_ones();
        let mut k: usize = 0;
        while k < ones.len()
            invariant
                k <= ones.len(),
                forall|j: int|
                    0 <= j < ones.len() ==> #[trigger] ones[j] < TABLE_SIZE && other@[ones[j] as int],
                forall|i: int|
                    0 <= i < TABLE_SIZE && #[trigger] other@[i] ==> ones@.contains(i as usize),
                forall|j1: int, j2: int| 0 <= j1 < j2 < ones.len() ==> #[trigger] ones[j1] < #[trigger] ones[j2],
                forall|i: int|
                    0 <= i < TABLE_SIZE ==> #[trigger] self@[i] == (old(self)@[i] || (other@[i]
                        && exists|j: int| 0 <= j < k && ones[j] == i)),
            decreases ones.len() - k,
        {
            let ghost before = self@;
            self.inner.set(ones[k], true);
            proof {
                assert forall|i: int| 0 <= i < TABLE_SIZE implies #[trigger] self@[i] == (old(self)@[i] || (other@[i]
                    && exists|j: int| 0 <= j < k + 1 && ones[j] == i)) by {
                    if i == ones[k as int] {
                        assert(ones[k as int] == i);
                    } else {
                        assert(self@[i] == before[i]);
                        if exists|j: int| 0 <= j < k + 1 && ones[j] == i {
                            let j = choose|j: int| 0 <= j < k + 1 && ones[j] == i;
                            assert(j != k);
                        }
                    }
                }
            }
            k = k + 1;
        }
        proof {
            assert forall|i: int| 0 <= i < TABLE_SIZE implies #[trigger] self@[i] == (old(self)@[i] || other@[i]) by {
                if other@[i] {
                    assert(ones@.contains(i as usize));
                    let j = choose|j: int| 0 <= j < ones.len() && ones@[j] == i as usize;
                    assert(ones[j] == i);
                }
            }
        }
    }

    /// Keeps only the cells that `other` has too.
    pub fn intersect_with(&mut self, other: &SmallMesh)
        ensures
            forall|i: int| 0 <= i < TABLE_SIZE ==> #[trigger] final(self)@[i] == (old(self)@[i] && other@[i]),
    {
        self.inner.and_with(&other.inner);
    }

    /// Whether `a` lies inside the board table.
    pub fn validate_rel(a: Axial) -> (b: bool)
        ensures
            b == valid_rel(a),
    {
        let ind = a.to_index();
        ind < TABLE_SIZE
    }

    /// Adds the cell `a`.
    pub fn add(&mut self, a: Axial)
        requires
            valid_rel(a),
        ensures
            final(self)@ == old(self)@.update(axial_index(a), true),
    {
        let ind = a.to_index();
        self.inner.set(ind, true);
        assert(self@ =~= old(self)@.update(axial_index(a), true));
    }

    /// Adds or removes the cell `a`.
    pub fn set_coord(&mut self, a: Axial, val: bool)
        requires
            valid_rel(a),
        ensures
            final(self)@ == old(self)@.update(axial_index(a), val),
    {
        if val {
            self.add(a)
        } else {
            self.remove(a)
        }
    }

    /// Removes the cell `a`.
    pub fn remove(&mut self, a: Axial)
        requires
            valid_rel(a),
        ensures
            final(self)@ == old(self)@.update(axial_index(a), false),
    {
        let ind = a.to_index();
        self.inner.set(ind, false);
        assert(self@ =~= old(self)@.update(axial_index(a), false));
    }

    /// Whether the cell at table index `i` is in the set.
    pub fn get_index(&self, i: usize) -> (b: bool)
        requires
            i < TABLE_SIZE,
        ensures
            b == self@[i as int],
    {
        self.inner.get(i)
    }

    /// Adds or removes the cell at table index `i`.
    pub fn set_index(&mut self, i: usize, v: bool)
        requires
            i < TABLE_SIZE,
        ensures
            final(self)@ == old(self)@.update(i as int, v),
    {
        self.inner.set(i, v);
        assert(self@ =~= old(self)@.update(i as int, v));
    }

    /// Whether the set is empty.
    pub fn is_empty(&self) -> (b: bool)
        ensures
            b == (forall|i: int| 0 <= i < TABLE_SIZE ==> !#[trigger] self@[i]),
    {
        let ones = self.inner.iter_ones();
        if ones.len() == 0 {
            assert forall|i: int| 0 <= i < TABLE_SIZE implies !#[trigger] self@[i] by {
                if self@[i] {
                    assert(ones@.contains(i as usize));
                }
            }
            true
        } else {
            assert(self@[ones[0] as int]);
            false
        }
    }

    /// Whether the cell `a` is in the set; cells outside the table never are.
    pub fn is_set(&self, a: Axial) -> (b: bool)
        ensures
            b == (valid_rel(a) && self@[axial_index(a)]),
    {
        if !Self::validate_rel(a) {
            return false;
        }
        let ind = a.to_index();
        self.inner.get(ind)
    }

    /// The table indices in the set, in increasing order.
    pub fn iter_ones(&self) -> (v: Vec<usize>)
        ensures
            forall|k: int| 0 <= k < v.len() ==> #[trigger] v[k] < TABLE_SIZE && self@[v[k] as int],
            forall|k1: int, k2: int| 0 <= k1 < k2 < v.len() ==> #[trigger] v[k1] < #[trigger] v[k2],
            forall|i: int| 0 <= i < TABLE_SIZE && #[trigger] self@[i] ==> v@.contains(i as usize),
    {
        self.inner.iter_ones()
    }

    /// The cells of the set, each moved by `point`, in increasing index order.
    pub fn iter_mesh(&self, point: Axial) -> (v: Vec<Axial>)
        requires
            -8 <= point.q <= 8,
            -8 <= point.r <= 8,
        ensures
            exists|ones: Seq<usize>|
                {
                    &&& forall|k: int| 0 <= k < ones.len() ==> #[trigger] ones[k] < TABLE_SIZE && self@[ones[k] as int]
                    &&& forall|k1: int, k2: int| 0 <= k1 < k2 < ones.len() ==> #[trigger] ones[k1] < #[trigger] ones[k2]
                    &&& forall|i: int| 0 <= i < TABLE_SIZE && #[trigger] self@[i] ==> ones.contains(i as usize)
                    &&& v.len() == ones.len()
                    &&& forall|k: int|
                        0 <= k < v.len() ==> #[trigger] v[k] == (Axial {
                            q: (point.q + index_axial(ones[k] as int).q) as i8,
                            r: (point.r + index_axial(ones[k] as int).r) as i8,
                        })
                },
    {
        let ones = self.inner.iter_ones();
        let mut v: Vec<Axial> = Vec::new();
        let mut k: usize = 0;
        while k < ones.len()
            invariant
                k <= ones.len(),
                -8 <= point.q <= 8,
                -8 <= point.r <= 8,
                forall|j: int| 0 <= j < ones.len() ==> #[trigger] ones[j] < TABLE_SIZE,
                v.len() == k,
                forall|j: int|
                    0 <= j < k ==> #[trigger] v[j] == (Axial {
                        q: (point.q + index_axial(ones[j] as int).q) as i8,
                        r: (point.r + index_axial(ones[j] as int).r) as i8,
                    }),
            decreases ones.len() - k,
        {
            let a = Axial::from_index(ones[k]);
            v.push(point.add(a));
            k = k + 1;
        }
        v
    }
}


/// For each direction in order: the direction, and the three directions a
/// walk may go on in from it (straight on, turned left, turned right).
pub fn explore_outward_two() -> (v: Vec<(HDir, [HDir; 3])>)
    ensures
        v.len() == 6,
        forall|k: int| 0 <= k < 6 ==> {
            let d = dir_of_index(k);
            &&& (#[trigger] v[k]).0 == d
            &&& v[k].1[0] == d
            &&& v[k].1[1] == dir_of_index(k + 5)
            &&& v[k].1[2] == dir_of_index(k + 1)
        },
{
    let dirs = HDir::all();
    let mut v: Vec<(HDir, [HDir; 3])> = Vec::new();
    let mut k: usize = 0;
    while k < 6
        invariant
            dirs@ == crate::hex::all_dirs(),
            k <= 6,
            v.len() == k,
            forall|j: int| 0 <= j < k ==> {
                let d = dir_of_index(j);
                &&& (#[trigger] v[j]).0 == d
                &&& v[j].1[0] == d
                &&& v[j].1[1] == dir_of_index(j + 5)
                &&& v[j].1[2] == dir_of_index(j + 1)
            },
        decreases 6 - k,
    {
        let dir = dirs[k];
        assert(dir == dir_of_index(k as int));
        let straight = dir;
        let left = dir.rotate60_left();
        let right = dir.rotate60_right();
        v.push((dir, [straight, left, right]));
        k = k + 1;
    }
    v
}

} // verus!
