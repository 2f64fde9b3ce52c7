//! Control bytes: the tag of a bucket, a group of tags, and the bit masks that
//! matching a group yields.
use vstd::prelude::*;
use vstd::std_specs::bits::*;

verus! {

/// The control byte of one bucket.
#[derive(Clone, Copy, PartialEq, Eq, Structural, Debug)]
pub enum Tag {
    /// The bucket is empty.
    Empty,
    /// The bucket was erased, and probing must step over it.
    Deleted,
    /// The bucket is full, and keeps seven bits of its element's hash.
    Full(u8),
}

/// The seven hash bits that a full bucket keeps.
pub open spec fn h2(hash: u64) -> u8 {
    ((hash >> ((usize::BITS - 7) as u64)) & 0x7f) as u8
}

impl Tag {
    /// Checks whether the tag marks a full bucket.
    pub fn is_full(self) -> (r: bool)
        ensures
            r == self is Full,
    {
        matches!(self, Tag::Full(_))
    }

    /// Checks whether the tag marks an empty or deleted bucket.
    pub fn is_special(self) -> (r: bool)
        ensures
            r == !(self is Full),
    {
        !self.is_full()
    }

    /// Checks whether a special tag marks an empty bucket.
    pub fn special_is_empty(self) -> (r: bool)
        requires
            !(self is Full),
        ensures
            r == self is Empty,
    {
        matches!(self, Tag::Empty)
    }

    /// Creates the tag of a full bucket, from the top seven bits of the hash.
    pub fn full(hash: u64) -> (r: Tag)
        ensures
            r == Tag::Full(h2(hash)),
    {
        let shift: u64 = (usize::BITS - 7) as u64;
        let top7: u64 = hash >> shift;
        Tag::Full((top7 & 0x7f) as u8)
    }
}

/// A set of positions within a group, one bit each.
#[derive(Clone, Copy)]
pub struct BitMask(pub u16);

/// Iterates over the set bits of a mask, lowest first.
#[derive(Clone, Copy)]
pub struct BitMaskIter(pub BitMask);

impl BitMask {
    /// Whether position `i` is in the mask.
    pub open spec fn bit(self, i: int) -> bool {
        0 <= i < 16 && (self.0 >> (i as u16)) & 1 == 1
    }

    /// Whether no position below `i` is in the mask.
    pub open spec fn none_below(self, i: int) -> bool {
        forall|j: int| 0 <= j < i ==> !self.bit(j)
    }

    fn none() -> (r: BitMask)
        ensures
            forall|j: int| !r.bit(j),
    {
        assert(forall|j: u16| #[trigger] (0u16 >> j) & 1 == 0) by (bit_vector);
        BitMask(0)
    }

    /// Adds position `i`.
    fn with_bit(self, i: usize) -> (r: BitMask)
        requires
            i < 16,
        ensures
            forall|j: int| r.bit(j) <==> self.bit(j) || j == i,
    {
        let m: u16 = self.0;
        let k: u16 = i as u16;
        assert forall|j: int| BitMask(m | (1u16 << k)).bit(j) <==> self.bit(j) || j == i by {
            if 0 <= j < 16 {
                let jj = j as u16;
                assert(((m | (1u16 << k)) >> jj) & 1 == 1 <==> ((m >> jj) & 1 == 1 || jj == k))
                    by (bit_vector)
                    requires
                        jj < 16,
                        k < 16,
                ;
            }
        }
        BitMask(m | (1u16 << k))
    }

    /// Returns whether the mask has any position.
    pub fn any_bit_set(self) -> (r: bool)
        ensures
            r <==> exists|i: int| self.bit(i),
    {
        proof {
            axiom_u16_trailing_zeros(self.0);
            if self.0 != 0 {
                assert(self.bit(u16_trailing_zeros(self.0) as int));
            } else {
                assert(forall|j: u16| #[trigger] (0u16 >> j) & 1 == 0) by (bit_vector);
            }
        }
        self.0 != 0
    }

    /// Returns the lowest position of the mask.
    pub fn lowest_set_bit(self) -> (r: Option<usize>)
        ensures
            match r {
                Some(i) => self.bit(i as int) && self.none_below(i as int),
                None => forall|j: int| !self.bit(j),
            },
    {
        let tz: usize = self.trailing_zeros();
        if tz < 16 {
            Some(tz)
        } else {
            None
        }
    }

    /// Returns the number of positions below the lowest one of the mask.
    pub fn trailing_zeros(self) -> (r: usize)
        ensures
            r <= 16,
            self.none_below(r as int),
            r < 16 ==> self.bit(r as int),
    {
        proof {
            axiom_u16_trailing_zeros(self.0);
        }
        self.0.trailing_zeros() as usize
    }

    /// Returns the number of positions above the highest one of the mask.
    pub fn leading_zeros(self) -> (r: usize)
        ensures
            r <= 16,
            forall|j: int| 16 - r <= j < 16 ==> !self.bit(j),
            r < 16 ==> self.bit(15 - r),
    {
        proof {
            axiom_u16_leading_zeros(self.0);
            let lz = u16_leading_zeros(self.0) as u16;
            if lz < 16 {
                let m = self.0;
                let k = (15 - lz) as u16;
                assert((m >> k) & 1 != 0 ==> (m >> k) & 1 == 1) by (bit_vector);
            }
        }
        self.0.leading_zeros() as usize
    }

    /// Removes the lowest position of the mask.
    pub fn remove_lowest_bit(self) -> (r: BitMask)
        requires
            self.0 != 0,
        ensures
            forall|l: int| self.bit(l) && self.none_below(l) ==> forall|j: int|
                r.bit(j) <==> self.bit(j) && j != l,
            r.0 < self.0,
    {
        let m: u16 = self.0;
        proof {
            assert((m & ((m - 1) as u16)) < m) by (bit_vector)
                requires
                    m != 0,
            ;
            axiom_u16_trailing_zeros(m);
            let t = u16_trailing_zeros(m) as u16;
            assert forall|l: int| self.bit(l) && self.none_below(l) implies forall|j: int|
                BitMask(m & ((m - 1) as u16)).bit(j) <==> self.bit(j) && j != l by {
                let ll = l as u16;
                assert(l == t) by {
                    if l < t {
                        assert((m >> ll) & 1 == 0);
                    }
                    if t < l {
                        assert(self.bit(t as int));
                    }
                }
                assert forall|j: int|
                    BitMask(m & ((m - 1) as u16)).bit(j) <==> self.bit(j) && j != l by {
                    if 0 <= j < 16 {
                        let jj = j as u16;
                        assert(((m & ((m - 1) as u16)) >> jj) & 1 == 1 <==> ((m >> jj) & 1 == 1 && jj
                            != ll)) by (bit_vector)
                            requires
                                jj < 16,
                                ll < 16,
                                (m >> ll) & 1 == 1,
                                m << ((16 - ll) as u16) == 0,
                        ;
                    }
                }
            }
        }
        BitMask(m & (m - 1))
    }

    /// Starts iterating over the positions of the mask.
    pub fn into_iter(self) -> (r: BitMaskIter)
        ensures
            r.0 == self,
    {
        BitMaskIter(self)
    }
}

impl BitMaskIter {
    /// Returns the lowest remaining position and removes it.
    pub fn next(&mut self) -> (r: Option<usize>)
        ensures
            match r {
                Some(i) => {
                    &&& old(self).0.bit(i as int)
                    &&& old(self).0.none_below(i as int)
                    &&& forall|j: int| final(self).0.bit(j) <==> old(self).0.bit(j) && j != i
                    &&& final(self).0.0 < old(self).0.0
                },
                None => (forall|j: int| !old(self).0.bit(j)) && *final(self) == *old(self),
            },
    {
        let bit = self.0.lowest_set_bit();
        match bit {
            Some(i) => {
                proof {
                    if self.0.0 == 0 {
                        assert(forall|j: u16| #[trigger] (0u16 >> j) & 1 == 0) by (bit_vector);
                    }
                }
                self.0 = self.0.remove_lowest_bit();
                Some(i)
            },
            None => None,
        }
    }
}

/// A group of consecutive control bytes, matched together.
#[derive(Clone, Copy)]
pub struct Group(pub [Tag; 16]);

impl Group {
    /// Number of control bytes in a group, on every target.
    pub const WIDTH: usize = 16;

    pub open spec fn view(self) -> Seq<Tag> {
        self.0@
    }

    /// The group of an unallocated table: every byte empty.
    pub fn static_empty() -> (r: Group)
        ensures
            forall|i: int| 0 <= i < 16 ==> #[trigger] r@[i] == Tag::Empty,
    {
        Group([Tag::Empty; 16])
    }

    /// Loads the group that starts at `pos`.
    pub fn load(ctrl: &Vec<Tag>, pos: usize) -> (r: Group)
        requires
            pos + 16 <= ctrl.len(),
        ensures
            r@ == ctrl@.subrange(pos as int, pos + 16),
    {
        let mut bytes: [Tag; 16] = [Tag::Empty; 16];
        let mut i: usize = 0;
        while i < 16
            invariant
                i <= 16,
                pos + 16 <= ctrl.len(),
                forall|j: int| 0 <= j < i ==> #[trigger] bytes@[j] == ctrl@[pos + j],
            decreases 16 - i,
        {
            bytes[i] = ctrl[pos + i];
            i = i + 1;
        }
        let r = Group(bytes);
        assert(r@ =~= ctrl@.subrange(pos as int, pos + 16));
        r
    }

    /// Stores the group at the bytes that start at `pos`.
    pub fn store(&self, ctrl: &mut Vec<Tag>, pos: usize)
        requires
            pos + 16 <= old(ctrl).len(),
        ensures
            final(ctrl)@.len() == old(ctrl)@.len(),
            forall|j: int|
                0 <= j < old(ctrl)@.len() ==> #[trigger] final(ctrl)@[j] == if pos <= j < pos + 16 {
                    self@[j - pos]
                } else {
                    old(ctrl)@[j]
                },
    {
        let mut i: usize = 0;
        while i < 16
            invariant
                i <= 16,
                ctrl@.len() == old(ctrl)@.len(),
                pos + 16 <= ctrl.len(),
                forall|j: int|
                    0 <= j < ctrl@.len() ==> #[trigger] ctrl@[j] == if pos <= j < pos + i {
                        self@[j - pos]
                    } else {
                        old(ctrl)@[j]
                    },
            decreases 16 - i,
        {
            ctrl[pos + i] = self.0[i];
            i = i + 1;
        }
    }

    /// Returns the positions that hold `tag`.
    pub fn match_tag(&self, tag: Tag) -> (r: BitMask)
        ensures
            forall|i: int| r.bit(i) <==> 0 <= i < 16 && self@[i] == tag,
    {
        let mut mask = BitMask::none();
        let mut i: usize = 0;
        while i < 16
            invariant
                i <= 16,
                forall|j: int| mask.bit(j) <==> 0 <= j < i && self@[j] == tag,
            decreases 16 - i,
        {
            if self.0[i] == tag {
                mask = mask.with_bit(i);
            }
            i = i + 1;
        }
        mask
    }

    /// Returns the positions that hold empty.
    pub fn match_empty(&self) -> (r: BitMask)
        ensures
            forall|i: int| r.bit(i) <==> 0 <= i < 16 && self@[i] == Tag::Empty,
    {
        self.match_tag(Tag::Empty)
    }

    /// Returns the positions that hold empty or deleted.
    pub fn match_empty_or_deleted(&self) -> (r: BitMask)
        ensures
            forall|i: int| r.bit(i) <==> 0 <= i < 16 && !(self@[i] is Full),
    {
        let mut mask = BitMask::none();
        let mut i: usize = 0;
        while i < 16
            invariant
                i <= 16,
                forall|j: int| mask.bit(j) <==> 0 <= j < i && !(self@[j] is Full),
            decreases 16 - i,
        {
            if self.0[i].is_special() {
                mask = mask.with_bit(i);
            }
            i = i + 1;
        }
        mask
    }

    /// Returns the positions of full buckets.
    pub fn match_full(&self) -> (r: BitMask)
        ensures
            forall|i: int| r.bit(i) <==> 0 <= i < 16 && self@[i] is Full,
    {
        let mut mask = BitMask::none();
        let mut i: usize = 0;
        while i < 16
            invariant
                i <= 16,
                forall|j: int| mask.bit(j) <==> 0 <= j < i && self@[j] is Full,
            decreases 16 - i,
        {
            if self.0[i].is_full() {
                mask = mask.with_bit(i);
            }
            i = i + 1;
        }
        mask
    }

    /// Turns every special byte into empty and every full one into deleted.
    pub fn convert_special_to_empty_and_full_to_deleted(self) -> (r: Group)
        ensures
            forall|i: int|
                0 <= i < 16 ==> #[trigger] r@[i] == if self@[i] is Full {
                    Tag::Deleted
                } else {
                    Tag::Empty
                },
    {
        let mut bytes: [Tag; 16] = self.0;
        let mut i: usize = 0;
        while i < 16
            invariant
                i <= 16,
                forall|j: int|
                    i <= j < 16 ==> #[trigger] bytes@[j] == self@[j],
                forall|j: int|
                    0 <= j < i ==> #[trigger] bytes@[j] == if self@[j] is Full {
                        Tag::Deleted
                    } else {
                        Tag::Empty
                    },
            decreases 16 - i,
        {
            bytes[i] = if self.0[i].is_full() {
                Tag::Deleted
            } else {
                Tag::Empty
            };
            i = i + 1;
        }
        Group(bytes)
    }
}

} // verus!
