//! The meta page: the roots of the store, kept twice.
//!
//! The meta page has two slots. Each holds a version, the root of the
//! system catalogue, the head of the free list, and a checksum over the
//! three. The active slot is the one with the higher version among those
//! whose checksum matches; at equal versions it is slot 0. New roots are
//! written to the slot that is not active, with the next version, and the
//! switch to them is one assignment. The slot that was active stays as it
//! is: if the new slot turns out torn, it is the one to fall back to.
//!
//! A slot is 32 bytes: the four fields in that order, eight bytes each,
//! little-endian. The checksum mixes the three fields, one after the
//! other, into a seed: each step is an exclusive or with the field and a
//! multiplication by a prime, modulo 2^64.

use vstd::prelude::*;
use crate::error::PageError;
use crate::ids::PageID;
use crate::layout::{lemma_put_u64, put_u64, read_u64, u64_at, write_u64};

verus! {

/// Size of one slot of the meta page in bytes.
pub const META_SLOT_SIZE: usize = 32;

/// Size of the meta page's two slots in bytes.
pub const META_SIZE: usize = 64;

/// What the checksum starts from.
pub const CHECKSUM_SEED: u64 = 0xcbf2_9ce4_8422_2325;

/// What each step of the checksum multiplies by.
pub const CHECKSUM_PRIME: u64 = 0x0000_0100_0000_01b3;

/// One step of the checksum.
pub open spec fn mix(h: u64, w: u64) -> u64 {
    (((h ^ w) as nat * CHECKSUM_PRIME as nat) % 0x1_0000_0000_0000_0000) as u64
}

/// The checksum over a version and two roots.
pub open spec fn checksum_of(version: u64, catalogue: u64, free_list: u64) -> u64 {
    mix(mix(mix(CHECKSUM_SEED, version), catalogue), free_list)
}

/// One slot of the meta page.
#[derive(Clone, Copy, Debug, PartialEq, Eq, Structural)]
pub struct MetaPage {
    /// How many commits the slot is from the first.
    pub version: u64,
    /// The root of the system catalogue.
    pub system_catalogue_head: PageID,
    /// The head of the list of free pages.
    pub free_list_head: PageID,
    /// The checksum over the three fields above.
    pub checksum: u64,
}

/// The roots that the meta page gives.
#[derive(Clone, Copy, Debug, PartialEq, Eq, Structural)]
pub struct Roots {
    /// The root of the system catalogue.
    pub catalog_root: PageID,
    /// The head of the list of free pages.
    pub free_list_head: PageID,
}

/// The two slots of the meta page and which of them is active.
#[derive(Clone, Copy, Debug, PartialEq, Eq)]
pub struct MetaPageSwitch {
    active_slot: u8,
    meta_slot: [MetaPage; 2],
}

/// The bytes of a slot.
pub open spec fn slot_image(slot: MetaPage) -> Seq<u8> {
    put_u64(
        put_u64(
            put_u64(
                put_u64(Seq::new(META_SLOT_SIZE as nat, |i: int| 0u8), 0, slot.version as int),
                8,
                slot.system_catalogue_head.0 as int,
            ),
            16,
            slot.free_list_head.0 as int,
        ),
        24,
        slot.checksum as int,
    )
}

/// The slot that bytes stand for.
pub open spec fn slot_of_image(bytes: Seq<u8>) -> MetaPage {
    MetaPage {
        version: u64_at(bytes, 0) as u64,
        system_catalogue_head: PageID(u64_at(bytes, 8) as u64),
        free_list_head: PageID(u64_at(bytes, 16) as u64),
        checksum: u64_at(bytes, 24) as u64,
    }
}

/// Which of two slots is active, if any: the one with the higher version
/// among those whose checksum matches, slot 0 at equal versions.
pub open spec fn active_of(first: MetaPage, second: MetaPage) -> Option<u8> {
    if first.is_valid() && second.is_valid() {
        if second.version > first.version {
            Some(1u8)
        } else {
            Some(0u8)
        }
    } else if first.is_valid() {
        Some(0u8)
    } else if second.is_valid() {
        Some(1u8)
    } else {
        None
    }
}

impl MetaPage {
    /// The checksum of the slot matches its fields.
    pub open spec fn is_valid(&self) -> bool {
        self.checksum == checksum_of(
            self.version,
            self.system_catalogue_head.0,
            self.free_list_head.0,
        )
    }

    /// The checksum over a version and two roots.
    pub fn checksum_for(version: u64, catalogue: PageID, free_list: PageID) -> (sum: u64)
        ensures
            sum == checksum_of(version, catalogue.0, free_list.0),
    {
        let a = (CHECKSUM_SEED ^ version).wrapping_mul(CHECKSUM_PRIME);
        let b = (a ^ catalogue.0).wrapping_mul(CHECKSUM_PRIME);
        (b ^ free_list.0).wrapping_mul(CHECKSUM_PRIME)
    }

    /// A slot with these fields and the checksum that matches them.
    pub fn new(version: u64, catalogue: PageID, free_list: PageID) -> (slot: MetaPage)
        ensures
            slot.is_valid(),
            slot.version == version,
            slot.system_catalogue_head == catalogue,
            slot.free_list_head == free_list,
    {
        MetaPage {
            version,
            system_catalogue_head: catalogue,
            free_list_head: free_list,
            checksum: Self::checksum_for(version, catalogue, free_list),
        }
    }

    /// Whether the checksum of the slot matches its fields.
    pub fn validate(&self) -> (ok: bool)
        ensures
            ok == self.is_valid(),
    {
        self.checksum == Self::checksum_for(
            self.version,
            self.system_catalogue_head,
            self.free_list_head,
        )
    }

    /// The bytes of the slot.
    pub fn to_bytes(&self) -> (bytes: [u8; META_SLOT_SIZE])
        ensures
            bytes@ == slot_image(*self),
            slot_of_image(bytes@) == *self,
    {
        let mut bytes = [0u8; META_SLOT_SIZE];
        assert(bytes@ =~= Seq::new(META_SLOT_SIZE as nat, |i: int| 0u8));
        write_u64(&mut bytes, 0, self.version);
        write_u64(&mut bytes, 8, self.system_catalogue_head.0);
        write_u64(&mut bytes, 16, self.free_list_head.0);
        write_u64(&mut bytes, 24, self.checksum);
        proof {
            lemma_slot_image(*self);
        }
        bytes
    }

    /// The slot that `bytes` stand for, whether its checksum matches or
    /// not.
    pub fn from_bytes(bytes: &[u8; META_SLOT_SIZE]) -> (slot: MetaPage)
        ensures
            slot == slot_of_image(bytes@),
    {
        MetaPage {
            version: read_u64(bytes, 0),
            system_catalogue_head: PageID(read_u64(bytes, 8)),
            free_list_head: PageID(read_u64(bytes, 16)),
            checksum: read_u64(bytes, 24),
        }
    }
}

/// A slot that is written out and read back is the same slot.
pub proof fn lemma_slot_image(slot: MetaPage)
    ensures
        slot_image(slot).len() == META_SLOT_SIZE,
        slot_of_image(slot_image(slot)) == slot,
{
    let z = Seq::new(META_SLOT_SIZE as nat, |i: int| 0u8);
    let a = put_u64(z, 0, slot.version as int);
    let b = put_u64(a, 8, slot.system_catalogue_head.0 as int);
    let c = put_u64(b, 16, slot.free_list_head.0 as int);
    let d = put_u64(c, 24, slot.checksum as int);
    lemma_put_u64(z, 0, slot.version as int);
    lemma_put_u64(a, 8, slot.system_catalogue_head.0 as int);
    lemma_put_u64(b, 16, slot.free_list_head.0 as int);
    lemma_put_u64(c, 24, slot.checksum as int);
    assert(u64_at(d, 0) == u64_at(a, 0));
    assert(u64_at(d, 8) == u64_at(b, 8));
    assert(u64_at(d, 16) == u64_at(c, 16));
}

impl MetaPageSwitch {
    /// The two slots.
    pub closed spec fn slots(&self) -> Seq<MetaPage> {
        self.meta_slot@
    }

    /// The number of the active slot.
    pub closed spec fn spec_active_slot(&self) -> u8 {
        self.active_slot
    }

    /// The active slot is one of the two and its checksum matches.
    pub open spec fn wf(&self) -> bool {
        &&& self.slots().len() == 2
        &&& self.spec_active_slot() < 2
        &&& self.slots()[self.spec_active_slot() as int].is_valid()
    }

    /// The active slot.
    pub open spec fn active(&self) -> MetaPage {
        self.slots()[self.spec_active_slot() as int]
    }

    /// The slot that is not active.
    pub open spec fn standby(&self) -> MetaPage {
        self.slots()[1 - self.spec_active_slot()]
    }

    /// The roots that the active slot gives.
    pub open spec fn roots(&self) -> Roots {
        Roots {
            catalog_root: self.active().system_catalogue_head,
            free_list_head: self.active().free_list_head,
        }
    }

    /// The meta page of a new store: version 1 with these roots in slot
    /// 0, and version 0 with no roots in slot 1.
    pub fn new(catalog_root: PageID, free_list_head: PageID) -> (meta: MetaPageSwitch)
        ensures
            meta.wf(),
            meta.spec_active_slot() == 0,
            meta.active().version == 1,
            meta.roots() == (Roots { catalog_root, free_list_head }),
            meta.standby().is_valid(),
            meta.standby().version == 0,
    {
        MetaPageSwitch {
            active_slot: 0,
            meta_slot: [
                MetaPage::new(1, catalog_root, free_list_head),
                MetaPage::new(0, PageID(0), PageID(0)),
            ],
        }
    }

    /// The number of the active slot.
    #[verifier::when_used_as_spec(spec_active_slot)]
    pub fn active_slot(&self) -> (slot: u8)
        ensures
            slot == self.spec_active_slot(),
    {
        self.active_slot
    }

    /// Slot `i` as it stands.
    pub fn slot(&self, i: u8) -> (slot: MetaPage)
        requires
            self.wf(),
            i < 2,
        ensures
            slot == self.slots()[i as int],
    {
        self.meta_slot[i as usize]
    }

    /// The roots of the store.
    pub fn read_active(&self) -> (roots: Roots)
        requires
            self.wf(),
        ensures
            roots == self.roots(),
    {
        let slot = &self.meta_slot[self.active_slot as usize];
        Roots { catalog_root: slot.system_catalogue_head, free_list_head: slot.free_list_head }
    }

    /// Takes two slots as they were read from durable storage and finds
    /// the active one. Fails with `ChecksumMismatch` when the checksum of
    /// neither slot matches.
    pub fn recover(first: MetaPage, second: MetaPage) -> (r: Result<MetaPageSwitch, PageError>)
        ensures
            match r {
                Ok(meta) => {
                    &&& meta.wf()
                    &&& meta.slots() == seq![first, second]
                    &&& active_of(first, second) == Some(meta.spec_active_slot())
                },
                Err(e) => e == PageError::ChecksumMismatch && active_of(first, second) is None,
            },
    {
        let first_ok = first.validate();
        let second_ok = second.validate();
        let active_slot: u8 = if first_ok && second_ok {
            if second.version > first.version {
                1
            } else {
                0
            }
        } else if first_ok {
            0
        } else if second_ok {
            1
        } else {
            return Err(PageError::ChecksumMismatch);
        };
        let meta = MetaPageSwitch { active_slot, meta_slot: [first, second] };
        assert(meta.slots() =~= seq![first, second]);
        Ok(meta)
    }

    /// Writes new roots to the slot that is not active, with the version
    /// after the active one. The active slot and the roots that
    /// `read_active` gives stay. Returns the slot's number and the slot,
    /// which is what has to be made durable before `publish`.
    pub fn stage_new_roots(&mut self, catalog_root: PageID, free_list_head: PageID) -> (staged: (
        u8,
        MetaPage,
    ))
        requires
            old(self).wf(),
            old(self).active().version < u64::MAX,
        ensures
            final(self).wf(),
            final(self).spec_active_slot() == old(self).spec_active_slot(),
            final(self).active() == old(self).active(),
            staged.0 == 1 - old(self).spec_active_slot(),
            staged.1 == final(self).standby(),
            staged.1.is_valid(),
            staged.1.version == old(self).active().version + 1,
            staged.1.system_catalogue_head == catalog_root,
            staged.1.free_list_head == free_list_head,
    {
        let active = self.active_slot as usize;
        let target = 1 - active;
        let slot = MetaPage::new(self.meta_slot[active].version + 1, catalog_root, free_list_head);
        self.meta_slot[target] = slot;
        (target as u8, slot)
    }

    /// Makes the staged slot the active one, if it was made durable, its
    /// checksum matches and its version is later than the active one's.
    /// Otherwise the active slot stays: after a write that failed the
    /// answer is `IOFailure`, for a slot that does not qualify it is
    /// `ChecksumMismatch`.
    pub fn publish(&mut self, persisted: bool) -> (r: Result<(), PageError>)
        requires
            old(self).wf(),
        ensures
            final(self).wf(),
            final(self).slots() == old(self).slots(),
            r == if !persisted {
                Err::<(), PageError>(PageError::IOFailure)
            } else if !(old(self).standby().is_valid() && old(self).standby().version > old(
                self,
            ).active().version) {
                Err(PageError::ChecksumMismatch)
            } else {
                Ok(())
            },
            r is Ok ==> final(self).spec_active_slot() == 1 - old(self).spec_active_slot(),
            r is Err ==> final(self).spec_active_slot() == old(self).spec_active_slot(),
    {
        if !persisted {
            return Err(PageError::IOFailure);
        }
        let active = self.active_slot as usize;
        let target = 1 - active;
        if !self.meta_slot[target].validate() || self.meta_slot[target].version
            <= self.meta_slot[active].version {
            return Err(PageError::ChecksumMismatch);
        }
        self.active_slot = target as u8;
        Ok(())
    }

    /// Commits new roots in memory: stages them and publishes them.
    /// Afterwards `read_active` gives the new roots, and the slot that was
    /// active is the standby, unchanged.
    pub fn commit_new_roots(&mut self, catalog_root: PageID, free_list_head: PageID) -> (r: Result<
        (),
        PageError,
    >)
        requires
            old(self).wf(),
            old(self).active().version < u64::MAX,
        ensures
            final(self).wf(),
            r is Ok,
            final(self).roots() == (Roots { catalog_root, free_list_head }),
            final(self).active().version == old(self).active().version + 1,
            final(self).standby() == old(self).active(),
            final(self).spec_active_slot() == 1 - old(self).spec_active_slot(),
    {
        let _ = self.stage_new_roots(catalog_root, free_list_head);
        self.publish(true)
    }

    /// The bytes of the meta page: slot 0, then slot 1.
    pub fn to_bytes(&self) -> (bytes: [u8; META_SIZE])
        requires
            self.wf(),
        ensures
            bytes@ == slot_image(self.slots()[0]) + slot_image(self.slots()[1]),
    {
        let first = self.meta_slot[0].to_bytes();
        let second = self.meta_slot[1].to_bytes();
        let mut bytes = [0u8; META_SIZE];
        let mut i: usize = 0;
        while i < META_SLOT_SIZE
            invariant
                i <= META_SLOT_SIZE,
                forall|j: int| 0 <= j < i ==> bytes@[j] == first@[j],
                forall|j: int| 0 <= j < i ==> bytes@[META_SLOT_SIZE + j] == second@[j],
            decreases META_SLOT_SIZE - i,
        {
            bytes[i] = first[i];
            bytes[META_SLOT_SIZE + i] = second[i];
            i = i + 1;
        }
        assert(bytes@ =~= first@ + second@);
        bytes
    }

    /// Reads a meta page from its bytes and finds the active slot. Fails
    /// with `ChecksumMismatch` when the checksum of neither slot matches.
    pub fn from_bytes(bytes: &[u8; META_SIZE]) -> (r: Result<MetaPageSwitch, PageError>)
        ensures
            match r {
                Ok(meta) => {
                    &&& meta.wf()
                    &&& meta.slots() == seq![
                        slot_of_image(bytes@.subrange(0, META_SLOT_SIZE as int)),
                        slot_of_image(bytes@.subrange(META_SLOT_SIZE as int, META_SIZE as int)),
                    ]
                    &&& active_of(meta.slots()[0], meta.slots()[1]) == Some(
                        meta.spec_active_slot(),
                    )
                },
                Err(e) => e == PageError::ChecksumMismatch && active_of(
                    slot_of_image(bytes@.subrange(0, META_SLOT_SIZE as int)),
                    slot_of_image(bytes@.subrange(META_SLOT_SIZE as int, META_SIZE as int)),
                ) is None,
            },
    {
        let mut first = [0u8; META_SLOT_SIZE];
        let mut second = [0u8; META_SLOT_SIZE];
        let mut i: usize = 0;
        while i < META_SLOT_SIZE
            invariant
                i <= META_SLOT_SIZE,
                forall|j: int| 0 <= j < i ==> first@[j] == bytes@[j],
                forall|j: int| 0 <= j < i ==> second@[j] == bytes@[META_SLOT_SIZE + j],
            decreases META_SLOT_SIZE - i,
        {
            first[i] = bytes[i];
            second[i] = bytes[META_SLOT_SIZE + i];
            i = i + 1;
        }
        assert(first@ =~= bytes@.subrange(0, META_SLOT_SIZE as int));
        assert(second@ =~= bytes@.subrange(META_SLOT_SIZE as int, META_SIZE as int));
        Self::recover(MetaPage::from_bytes(&first), MetaPage::from_bytes(&second))
    }
}

/// A meta page that is written out and read back has the same slots, and
/// the slot that was active is active again, unless the other slot
/// qualifies with a later version.
pub proof fn lemma_meta_round_trip(meta: MetaPageSwitch)
    requires
        meta.wf(),
    ensures
        ({
            let bytes = slot_image(meta.slots()[0]) + slot_image(meta.slots()[1]);
            &&& slot_of_image(bytes.subrange(0, META_SLOT_SIZE as int)) == meta.slots()[0]
            &&& slot_of_image(bytes.subrange(META_SLOT_SIZE as int, META_SIZE as int))
                == meta.slots()[1]
        }),
        active_of(meta.slots()[0], meta.slots()[1]) is Some,
        !(meta.standby().is_valid() && meta.standby().version >= meta.active().version)
            ==> active_of(meta.slots()[0], meta.slots()[1]) == Some(meta.spec_active_slot()),
{
    let a = slot_image(meta.slots()[0]);
    let b = slot_image(meta.slots()[1]);
    lemma_slot_image(meta.slots()[0]);
    lemma_slot_image(meta.slots()[1]);
    assert((a + b).subrange(0, META_SLOT_SIZE as int) =~= a);
    assert((a + b).subrange(META_SLOT_SIZE as int, META_SIZE as int) =~= b);
}

} // verus!
