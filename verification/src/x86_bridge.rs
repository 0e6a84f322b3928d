//! Page sizes, flags and frame allocation of the x86_64 boot environment.

use crate::error::MapError;
use crate::traits;
use crate::traits::{FrameAllocator, PageFlags, PageSize, PhysAddr, VirtAddr};
use crate::x86_64;
use crate::x86_64::{SIZE_2_MIB, SIZE_4_KIB};
use vstd::prelude::*;

verus! {

/// x86_64 page sizes.
#[derive(Clone, Copy, Debug, PartialEq, Eq, Structural)]
pub enum X86PageSize {
    /// A page of 4 KiB.
    Size4KiB,
    /// A page of 2 MiB.
    Size2MiB,
}

impl PageSize for X86PageSize {
    const BASE: Self = X86PageSize::Size4KiB;

    open spec fn size(self) -> u64 {
        match self {
            X86PageSize::Size4KiB => SIZE_4_KIB,
            X86PageSize::Size2MiB => SIZE_2_MIB,
        }
    }

    open spec fn huge_sizes() -> Seq<Self> {
        seq![X86PageSize::Size2MiB]
    }

    fn bytes(self) -> (r: u64) {
        proof {
            x86_64::lemma_page_sizes();
        }
        match self {
            X86PageSize::Size4KiB => SIZE_4_KIB,
            X86PageSize::Size2MiB => SIZE_2_MIB,
        }
    }

    fn huge_page_sizes() -> (r: &'static [Self]) {
        proof {
            x86_64::lemma_page_sizes();
        }
        let sizes: &'static [Self; 1] = &[X86PageSize::Size2MiB];
        let r: &'static [Self] = sizes;
        assert(r@ =~= Self::huge_sizes());
        r
    }
}

/// The base page size is 4 KiB.
pub proof fn lemma_base()
    ensures
        X86PageSize::BASE == X86PageSize::Size4KiB,
{
}

/// Convert [`PageFlags`] to x86_64 page table flags.
pub fn to_x86_flags(flags: PageFlags) -> (r: u64)
    ensures
        r == x86_64::flag_word(flags),
{
    x86_64::to_x86_64_flags(flags)
}

/// Convert x86_64 page table flags to [`PageFlags`].
pub fn from_x86_flags(word: u64) -> (r: PageFlags)
    ensures
        r == x86_64::word_flags(word),
{
    x86_64::from_x86_64_flags(word)
}

/// Check that a page and a frame of the given size start at these addresses.
pub fn check_addresses(virt: VirtAddr, phys: PhysAddr, page_size: X86PageSize) -> (r: Result<
    (),
    MapError,
>)
    ensures
        r == if virt.0 % page_size.size() == 0 && phys.0 % page_size.size() == 0 {
            Ok::<(), MapError>(())
        } else {
            Err(MapError::InvalidAddress)
        },
{
    let size: u64 = page_size.bytes();
    if virt.as_u64() % size == 0 && phys.as_u64() % size == 0 {
        Ok(())
    } else {
        Err(MapError::InvalidAddress)
    }
}

/// Whether the frame at index `k` lies where a frame of 2 MiB needs it that starts with
/// the first of `frames`.
pub open spec fn fits(frames: Seq<(X86PageSize, u64)>, k: int) -> bool {
    &&& frames[0].1 as int % SIZE_2_MIB as int == 0
    &&& frames[k].1 == frames[0].1 + k * SIZE_4_KIB
}

/// Whether `frames` are 512 adjacent frames that form an aligned frame of 2 MiB.
pub open spec fn forms_2_mib(frames: Seq<(X86PageSize, u64)>) -> bool {
    &&& frames.len() == 512
    &&& forall|k: int| 0 <= k < 512 ==> #[trigger] fits(frames, k)
}

/// What a request for a frame of 2 MiB asks of an allocator of 4 KiB frames, and what
/// comes of it.
///
/// Frames of 4 KiB are requested one by one, until one is refused, one does not fit, or
/// all 512 are there.
pub open spec fn gathers_2_mib(
    granted: Seq<(X86PageSize, u64)>,
    refused: Seq<X86PageSize>,
    granted_after: Seq<(X86PageSize, u64)>,
    refused_after: Seq<X86PageSize>,
    r: Option<PhysAddr>,
) -> bool {
    let got = traits::added(granted, granted_after);
    &&& granted_after == granted + got
    &&& got.len() <= 512
    &&& forall|k: int| 0 <= k < got.len() ==> (#[trigger] got[k]).0 is Size4KiB
    &&& forall|k: int| 0 <= k < got.len() - 1 ==> #[trigger] fits(got, k)
    &&& r is Some <==> forms_2_mib(got)
    &&& match r {
        Some(frame) => frame.0 == got[0].1 && refused_after == refused,
        None => {
            ||| {
                // A request was refused.
                &&& refused_after == refused.push(X86PageSize::Size4KiB)
                &&& got.len() < 512
                &&& got.len() > 0 ==> fits(got, got.len() - 1)
            }
            ||| {
                // The last frame does not fit.
                &&& refused_after == refused
                &&& got.len() > 0
                &&& !fits(got, got.len() - 1)
            }
        },
    }
}

/// The frame at index `k` is the next one behind those before it, and the first one lies at a
/// multiple of 2 MiB.
pub open spec fn in_place(frames: Seq<(X86PageSize, u64)>, k: int) -> bool {
    frames[0].1 as int % 0x20_0000 == 0 && frames[k].1 == frames[0].1 + 0x1000 * k
}

/// Gathering a frame of 2 MiB takes frames of 4 KiB only, and goes on exactly as long as they
/// are in place. It succeeds if and only if 512 of them are, with the address of the first one,
/// and fails only where a request was refused or the last frame is not in place.
pub proof fn lemma_gathered_frames(
    granted: Seq<(X86PageSize, u64)>,
    refused: Seq<X86PageSize>,
    granted_after: Seq<(X86PageSize, u64)>,
    refused_after: Seq<X86PageSize>,
    r: Option<PhysAddr>,
)
    requires
        gathers_2_mib(granted, refused, granted_after, refused_after, r),
    ensures
        granted_after.len() >= granted.len(),
        granted_after.take(granted.len() as int) == granted,
        ({
            let got = granted_after.skip(granted.len() as int);
            &&& got.len() <= 512
            &&& forall|k: int| 0 <= k < got.len() ==> (#[trigger] got[k]).0 is Size4KiB
            &&& forall|k: int| 0 <= k < got.len() - 1 ==> #[trigger] in_place(got, k)
            &&& r is Some <==> got.len() == 512 && forall|k: int|
                0 <= k < 512 ==> #[trigger] in_place(got, k)
            &&& r is Some ==> r->Some_0.0 == got[0].1 && refused_after == refused
            &&& r is None ==> {
                if got.len() > 0 && !in_place(got, got.len() - 1) {
                    refused_after == refused
                } else {
                    got.len() < 512 && refused_after == refused.push(X86PageSize::Size4KiB)
                }
            }
        }),
{
    let got = traits::added(granted, granted_after);
    assert(granted_after.skip(granted.len() as int) =~= got);
    assert(granted_after.take(granted.len() as int) =~= granted);
    assert forall|k: int| true implies #[trigger] in_place(got, k) == fits(got, k) by {}
    if got.len() == 512 && forall|k: int| 0 <= k < 512 ==> #[trigger] in_place(got, k) {
        assert forall|k: int| 0 <= k < 512 implies #[trigger] fits(got, k) by {
            assert(in_place(got, k));
        }
    }
}

/// Hands out frames of both sizes from an allocator of 4 KiB frames.
pub struct X86FrameAllocator<'a, A: FrameAllocator<X86PageSize>> {
    inner: &'a mut A,
    refused: Ghost<Seq<X86PageSize>>,
    granted: Ghost<Seq<(X86PageSize, u64)>>,
}

impl<'a, A: FrameAllocator<X86PageSize>> X86FrameAllocator<'a, A> {
    /// The frames that the wrapped allocator handed out so far.
    pub closed spec fn inner_granted(&self) -> Seq<(X86PageSize, u64)> {
        self.inner.granted()
    }

    /// The sizes of the frames that the wrapped allocator refused so far.
    pub closed spec fn inner_refused(&self) -> Seq<X86PageSize> {
        self.inner.refused()
    }

    /// The reference to the wrapped allocator.
    pub closed spec fn inner(&self) -> &'a mut A {
        self.inner
    }

    /// A wrapper that is not used any more leaves the wrapped allocator as it is.
    pub proof fn lemma_given_back(self)
        requires
            has_resolved(self),
        ensures
            final(self.inner()).granted() == self.inner_granted(),
            final(self.inner()).refused() == self.inner_refused(),
            final(self.inner()).available() == self.available(),
    {
    }

    /// Wrap an allocator. Only frames of 4 KiB are requested from it.
    pub fn new(inner: &'a mut A) -> (r: Self)
        ensures
            r.available() == old(inner).available(),
            r.refused() == old(inner).refused(),
            r.granted() == old(inner).granted(),
            r.inner_granted() == old(inner).granted(),
            r.inner_refused() == old(inner).refused(),
            *final(r.inner()) == *final(inner),
    {
        let ghost refused = inner.refused();
        let ghost granted = inner.granted();
        X86FrameAllocator { inner, refused: Ghost(refused), granted: Ghost(granted) }
    }

    /// Allocate 512 contiguous 4 KiB frames that form an aligned frame of 2 MiB.
    fn allocate_2_mib(&mut self) -> (r: Option<PhysAddr>)
        ensures
            match r {
                Some(frame) => {
                    &&& frame.0 as int % SIZE_2_MIB as int == 0
                    &&& forall|a: int|
                        frame.0 <= a < frame.0 + SIZE_2_MIB ==> #[trigger] old(
                            self,
                        ).available().contains(a) && !final(self).available().contains(a)
                },
                None => true,
            },
            final(self).refused() == old(self).refused(),
            final(self).granted() == old(self).granted(),
            final(self).available().subset_of(old(self).available()),
            gathers_2_mib(
                old(self).inner_granted(),
                old(self).inner_refused(),
                final(self).inner_granted(),
                final(self).inner_refused(),
                r,
            ),
            *final(final(self).inner()) == *final(old(self).inner()),
    {
        let ghost before = self.available();
        let ghost granted = self.inner_granted();
        let ghost mut got: Seq<(X86PageSize, u64)> = Seq::empty();
        let first: u64 = match self.inner.allocate_frame(X86PageSize::Size4KiB) {
            Some(frame) => frame.as_u64(),
            None => {
                assert(traits::added(granted, self.inner_granted()) =~= got);
                assert(self.inner_granted() =~= granted + got);
                return None;
            },
        };
        proof {
            got = got.push((X86PageSize::Size4KiB, first));
            assert(self.inner_granted() =~= granted + got);
            assert(traits::added(granted, self.inner_granted()) =~= got);
        }
        if first % SIZE_2_MIB != 0 {
            // Not aligned: there is no contiguous 2 MiB frame here.
            assert(!fits(got, 0));
            return None;
        }
        // Allocate the remaining 511 frames.
        let mut offset: u64 = SIZE_4_KIB;
        while offset < SIZE_2_MIB
            invariant
                SIZE_4_KIB <= offset <= SIZE_2_MIB,
                offset == got.len() * SIZE_4_KIB,
                first % SIZE_2_MIB == 0,
                before == old(self).available(),
                granted == old(self).inner_granted(),
                got.len() >= 1,
                got[0] == (X86PageSize::Size4KiB, first),
                forall|k: int| 0 <= k < got.len() ==> (#[trigger] got[k]).0 is Size4KiB,
                forall|k: int| 0 <= k < got.len() ==> #[trigger] fits(got, k),
                self.inner_granted() == granted + got,
                self.inner_refused() == old(self).inner_refused(),
                *final(self.inner()) == *final(old(self).inner()),
                self.refused() == old(self).refused(),
                self.granted() == old(self).granted(),
                self.available().subset_of(before),
                forall|a: int|
                    first <= a < first + offset ==> #[trigger] before.contains(a)
                        && !self.available().contains(a),
            decreases SIZE_2_MIB - offset,
        {
            let ghost now = self.available();
            let ghost known = got;
            let frame: u64 = match self.inner.allocate_frame(X86PageSize::Size4KiB) {
                Some(frame) => frame.as_u64(),
                None => {
                    assert(traits::added(granted, self.inner_granted()) =~= got);
                    return None;
                },
            };
            proof {
                got = got.push((X86PageSize::Size4KiB, frame));
                assert(self.inner_granted() =~= granted + got);
                assert(traits::added(granted, self.inner_granted()) =~= got);
                assert forall|k: int| 0 <= k < known.len() implies #[trigger] fits(got, k) by {
                    assert(fits(known, k));
                }
            }
            if frame != first + offset {
                // Not contiguous.
                assert(!fits(got, got.len() - 1));
                return None;
            }
            assert forall|a: int| first <= a < first + offset + SIZE_4_KIB implies
                #[trigger] before.contains(a) && !self.available().contains(a) by {
                if a >= frame {
                    assert(now.contains(a));
                }
            }
            offset = offset + SIZE_4_KIB;
        }
        assert(traits::added(granted, self.inner_granted()) =~= got);
        Some(PhysAddr::new(first))
    }
}

impl<'a, A: FrameAllocator<X86PageSize>> FrameAllocator<X86PageSize> for X86FrameAllocator<
    'a,
    A,
> {
    closed spec fn available(&self) -> Set<int> {
        self.inner.available()
    }

    closed spec fn refused(&self) -> Seq<X86PageSize> {
        self.refused@
    }

    closed spec fn granted(&self) -> Seq<(X86PageSize, u64)> {
        self.granted@
    }

    /// A frame of 4 KiB is requested from the wrapped allocator as it is. A frame of 2 MiB
    /// is gathered from 4 KiB frames that the wrapped allocator hands out one after the
    /// other.
    fn allocate_frame(&mut self, size: X86PageSize) -> (r: Option<PhysAddr>)
        ensures
            size is Size4KiB ==> match r {
                Some(frame) => {
                    &&& final(self).inner_granted() == old(self).inner_granted().push(
                        (X86PageSize::Size4KiB, frame.0),
                    )
                    &&& final(self).inner_refused() == old(self).inner_refused()
                },
                None => {
                    &&& final(self).inner_granted() == old(self).inner_granted()
                    &&& final(self).inner_refused() == old(self).inner_refused().push(
                        X86PageSize::Size4KiB,
                    )
                },
            },
            size is Size2MiB ==> gathers_2_mib(
                old(self).inner_granted(),
                old(self).inner_refused(),
                final(self).inner_granted(),
                final(self).inner_refused(),
                r,
            ),
            *final(final(self).inner()) == *final(old(self).inner()),
    {
        let r = match size {
            X86PageSize::Size4KiB => self.inner.allocate_frame(X86PageSize::Size4KiB),
            X86PageSize::Size2MiB => self.allocate_2_mib(),
        };
        proof {
            match r {
                Some(frame) => {
                    self.granted@ = self.granted@.push((size, frame.0));
                },
                None => {
                    self.refused@ = self.refused@.push(size);
                },
            }
        }
        r
    }
}

} // verus!
