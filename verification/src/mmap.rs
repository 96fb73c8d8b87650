//! The chunk allocator: a region of bytes whose atom 0 holds the region
//! header and whose free space is kept as a singly linked list of free runs,
//! the headers of which live inside the region itself.
//!
//! The backing bytes are owned here as a plain byte vector; opening a
//! durable region means handing this module the bytes read from the backing
//! file, and closing hands them back to be written out. The operating-system
//! work around a region — opening and sizing the file, mapping it at a fixed
//! address, syncing — cannot be verified and stays outside the library.

use vstd::prelude::*;
use vstd::set_lib::set_int_range;
use crate::codec::{get_u16, get_u32, get_u64, get_u8, put_u16, put_u32, put_u64, put_u8};
use crate::layout::{
    ATOM_NULL, ATOM_SHIFT, ATOM_SIZE, DEFAULT_COUNT, DEFAULT_SIZE, FREE_MAGIC, FREE_OFF,
    MAGIC_NUMBER, MAGIC_OFF, MAGIC_WRONG, MAXSZ_OFF, NHDR_OFF, NODE_MAGIC_OFF, NODE_NEXT_OFF,
    NODE_SIZE_OFF, SIZE_OFF, VERS_MAJOR, VERS_MINOR, VMAJ_OFF, VMIN_OFF,
};
use crate::layout::{
    covered, free_set, image_valid, in_run, info_free, info_magic, info_max, info_nhdr, info_size,
    info_vmaj, info_vmin, lemma_list_wf_unique, list_wf, n_atoms, node_base, node_magic, node_next,
    node_ok, node_size, region_wf, runs_disjoint,
};
use crate::layout::{
    lemma_extend_walk, lemma_partial_chain_complete, lemma_valid_cursor_node, partial_chain,
};
use crate::layout::{atom_of, lemma_atom_of_range};

verus! {

/// A virtual address, kept as a plain machine word. Regions are mapped at a
/// fixed base so that atom indices convert to stable addresses.
#[derive(Clone, Copy, Debug)]
pub struct Address(pub usize);

/// An atom index: the position of an atom within the region. Index 0 is the
/// null sentinel and coincides with the region header.
#[derive(Clone, Copy, Debug)]
pub struct Atom(u32);

/// A count of atoms, distinct in type from an index: an index addresses a
/// location, a count measures a span.
#[derive(Clone, Copy, Debug, PartialEq, PartialOrd)]
pub struct AtomCount(u32);

/// An atom index interpreted as a free-list link; 0 means end of list.
#[derive(Clone, Copy, Debug)]
pub struct FreeAtom(u32);

impl View for Atom {
    type V = u32;

    closed spec fn view(&self) -> u32 {
        self.0
    }
}

impl View for AtomCount {
    type V = u32;

    closed spec fn view(&self) -> u32 {
        self.0
    }
}

impl View for FreeAtom {
    type V = u32;

    closed spec fn view(&self) -> u32 {
        self.0
    }
}

impl Atom {
    /// The raw index.
    #[inline]
    pub fn atom(&self) -> (r: u32)
        ensures
            r == self@,
    {
        self.0
    }

    /// Whether this is the null index.
    pub fn is_null(&self) -> (r: bool)
        ensures
            r == (self@ == 0),
    {
        self.0 == 0
    }

    /// The null index.
    pub fn make_null() -> (r: Atom)
        ensures
            r@ == 0,
    {
        Atom(ATOM_NULL)
    }
}

impl AtomCount {
    /// The raw count.
    #[inline]
    pub fn count(&self) -> (r: u32)
        ensures
            r == self@,
    {
        self.0
    }
}

impl FreeAtom {
    /// The raw index.
    #[inline]
    pub fn atom(&self) -> (r: u32)
        ensures
            r == self@,
    {
        self.0
    }

    /// Whether this link is the end-of-list terminator.
    pub fn is_null(&self) -> (r: bool)
        ensures
            r == (self@ == 0),
    {
        self.0 == ATOM_NULL
    }
}

/// Why a region header was rejected on reopen.
#[derive(Clone, Copy, Debug, PartialEq, Eq, Structural)]
pub enum InfoReason {
    /// The magic reads as the opposite-endian value.
    EndianMagic,
    /// The magic is neither ours nor the opposite-endian value.
    WrongMagic,
    /// The major version differs from this library's.
    WrongMajorVersion,
    /// The minor version is newer than this library's.
    MinorVersionTooNew,
    /// The size field is not a whole, in-bounds number of atoms.
    BadSizeField,
    /// The free list rooted in the header is corrupt.
    BadFreeList,
}

/// A failure to open a region.
#[derive(Clone, Copy, Debug, PartialEq, Eq, Structural)]
pub enum Error {
    /// The header or free list of an existing region was rejected;
    /// `value` carries the offending field widened to 32 bits.
    BadInfo { reason: InfoReason, value: u32 },
    /// An unclassified failure.
    Unknown,
}

impl Error {
    /// What the failure's diagnostic text says.
    pub open spec fn message_spec(&self) -> Seq<char> {
        match self {
            Error::BadInfo { reason: InfoReason::EndianMagic, .. } => "magic has endian issues"@,
            Error::BadInfo { reason: InfoReason::WrongMagic, .. } => "magic has wrong value"@,
            Error::BadInfo {
                reason: InfoReason::WrongMajorVersion,
                ..
            } => "version number is wrong"@,
            Error::BadInfo {
                reason: InfoReason::MinorVersionTooNew,
                ..
            } => "minor version number is too new"@,
            Error::BadInfo { reason: InfoReason::BadSizeField, .. } => "size field is corrupt"@,
            Error::BadInfo { reason: InfoReason::BadFreeList, .. } => "free list is corrupt"@,
            Error::Unknown => "unknown error"@,
        }
    }

    /// The diagnostic text for this failure.
    pub fn message(&self) -> (r: &'static str)
        ensures
            r@ == self.message_spec(),
    {
        match self {
            Error::BadInfo { reason: InfoReason::EndianMagic, .. } => "magic has endian issues",
            Error::BadInfo { reason: InfoReason::WrongMagic, .. } => "magic has wrong value",
            Error::BadInfo { reason: InfoReason::WrongMajorVersion, .. } => "version number is wrong",
            Error::BadInfo {
                reason: InfoReason::MinorVersionTooNew,
                ..
            } => "minor version number is too new",
            Error::BadInfo { reason: InfoReason::BadSizeField, .. } => "size field is corrupt",
            Error::BadInfo { reason: InfoReason::BadFreeList, .. } => "free list is corrupt",
            Error::Unknown => "unknown error",
        }
    }
}

/// The number of atoms needed for `size` bytes: ceiling division by the
/// atom size.
pub open spec fn num_atoms_spec(size: int) -> int {
    (size + (ATOM_SIZE - 1)) / (ATOM_SIZE as int)
}

/// Every byte that the caller may own reads the same out of both regions:
/// bytes past the header atom, within the recorded size, and outside every
/// free run. Allocator operations keep this, so data written into
/// handed-out chunks survives later allocator traffic.
pub open spec fn owned_bytes_preserved(pre: Mmap, post: Mmap) -> bool {
    forall|i: int|
        (ATOM_SIZE as int) <= i < pre.spec_size() && !pre.free_atoms().contains(
            #[trigger] atom_of(i),
        ) ==> post.mem_bytes()[i] == pre.mem_bytes()[i]
}

/// How many atoms an extension adds for a request of `c` atoms: twice the
/// request, rounded up to a whole default batch, and never less than one
/// batch.
pub open spec fn grow_spec(c: int) -> int {
    if 2 * c < DEFAULT_COUNT {
        DEFAULT_COUNT as int
    } else {
        crate::rounding::round_up_spec(2 * c, DEFAULT_COUNT as int)
    }
}

/// Returns the number of atoms needed to hold `size` bytes.
pub fn num_atoms_needed(size: usize, atom_shift: u32) -> (r: AtomCount)
    requires
        atom_shift == ATOM_SHIFT,
        num_atoms_spec(size as int) <= u32::MAX,
    ensures
        r@ == num_atoms_spec(size as int),
{
    if size == 0 {
        proof {
            vstd::arithmetic::div_mod::lemma_basic_div(ATOM_SIZE - 1, ATOM_SIZE as int);
        }
        AtomCount(0)
    } else {
        let c64 = ((size - 1) as u64) / (ATOM_SIZE as u64) + 1;
        proof {
            vstd::arithmetic::div_mod::lemma_div_plus_one(size - 1, ATOM_SIZE as int);
        }
        AtomCount(c64 as u32)
    }
}

/// The byte address of atom `atom` in a region mapped at `addr`:
/// `addr + (atom << shift)`.
pub fn atom_to_addr(addr: Address, atom: u32, shift: u32) -> (r: usize)
    requires
        shift == ATOM_SHIFT,
        addr.0 + (atom as int) * (ATOM_SIZE as int) <= usize::MAX,
    ensures
        r == addr.0 + (atom as int) * (ATOM_SIZE as int),
{
    addr.0 + (atom as usize) * ATOM_SIZE
}

/// The region header, decoded into plain fields.
#[derive(Clone, Copy, Debug)]
pub struct MmapInfo {
    /// Magic number; `MAGIC_NUMBER` when healthy.
    pub magic: u16,
    /// Major version number.
    pub vers_major: u8,
    /// Minor version number.
    pub vers_minor: u8,
    /// Current byte length of the region.
    pub size: usize,
    /// Hard ceiling on the region size, or 0 for no limit.
    pub max_size: usize,
    /// Number of optional secondary headers (reserved, 0).
    pub num_headers: u32,
    /// Atom index of the first free run, 0 if none.
    pub free: FreeAtom,
}

/// The builder's settings, as plain values for contracts.
pub struct BuilderConfig {
    pub file_backed: bool,
    pub write: bool,
    pub mint: bool,
    pub private: bool,
    pub size: usize,
    pub max_size: usize,
}

/// Fluent configuration for opening a region.
#[derive(Debug, Default)]
pub struct MmapBuilder {
    path: Option<String>,
    write: bool,
    mint: bool,
    private: bool,
    size: usize,
    max_size: usize,
}

impl View for MmapBuilder {
    type V = BuilderConfig;

    closed spec fn view(&self) -> BuilderConfig {
        BuilderConfig {
            file_backed: self.path is Some,
            write: self.write,
            mint: self.mint,
            private: self.private,
            size: self.size,
            max_size: self.max_size,
        }
    }
}

impl MmapBuilder {
    /// A builder with the defaults: anonymous, writable, not minting,
    /// private, one default-sized region, no size ceiling.
    pub fn new() -> (r: MmapBuilder)
        ensures
            !r@.file_backed,
            r@.write,
            !r@.mint,
            r@.private,
            r@.size == DEFAULT_SIZE,
            r@.max_size == 0,
    {
        MmapBuilder {
            path: None,
            write: true,
            mint: false,
            private: true,
            size: DEFAULT_SIZE,
            max_size: 0,
        }
    }

    /// Names the backing file; the region becomes file-backed.
    pub fn path(self, path: String) -> (r: Self)
        ensures
            r@ == (BuilderConfig { file_backed: true, ..self@ }),
    {
        MmapBuilder { path: Some(path), ..self }
    }

    /// Allows mutation of the region.
    pub fn write(self, val: bool) -> (r: Self)
        ensures
            r@ == (BuilderConfig { write: val, ..self@ }),
    {
        MmapBuilder { write: val, ..self }
    }

    /// Resets the backing store and stamps a fresh header.
    pub fn mint(self, val: bool) -> (r: Self)
        ensures
            r@ == (BuilderConfig { mint: val, ..self@ }),
    {
        MmapBuilder { mint: val, ..self }
    }

    /// Restricts the backing file's permissions to its owner.
    pub fn private(self, val: bool) -> (r: Self)
        ensures
            r@ == (BuilderConfig { private: val, ..self@ }),
    {
        MmapBuilder { private: val, ..self }
    }

    /// Sets the desired region size, rounded up to a whole number of atoms.
    pub fn size(self, size: usize) -> (r: Self)
        requires
            size + ATOM_SIZE <= usize::MAX + 1,
        ensures
            r@ == (BuilderConfig {
                size: crate::rounding::round_up_spec(size as int, ATOM_SIZE as int) as usize,
                ..self@
            }),
    {
        let rounded = crate::rounding::round_up_usize(size, ATOM_SIZE);
        MmapBuilder { size: rounded, ..self }
    }

    /// Sets the hard ceiling the region may grow to (0 for no limit).
    pub fn max_size(self, max_size: usize) -> (r: Self)
        ensures
            r@ == (BuilderConfig { max_size: max_size, ..self@ }),
    {
        MmapBuilder { max_size, ..self }
    }

    /// Whether the builder's options ask for a region this library can
    /// stamp fresh: a whole number of atoms, at least the header atom and
    /// one free atom, indices within 32 bits, and a ceiling no smaller than
    /// the region.
    pub open spec fn fresh_ok(c: BuilderConfig) -> bool {
        &&& c.size as int % (ATOM_SIZE as int) == 0
        &&& 2 * ATOM_SIZE <= c.size
        &&& c.size as int / (ATOM_SIZE as int) <= u32::MAX
        &&& (c.max_size == 0 || c.size <= c.max_size)
    }

    /// Opens a region. A fresh region — `mint`, or nothing to reopen — is
    /// stamped anew at the builder's size, with one free run spanning every
    /// atom past the header. Reopening validates `existing`, the bytes of
    /// the backing store, and accepts them exactly when the header is one
    /// this library honors and the free list is intact; the checks run in
    /// the order given by the error clauses below.
    #[verifier::rlimit(100)]
    pub fn open(self, existing: Option<Vec<u8>>) -> (r: Result<Mmap, Error>)
        requires
            (self@.mint || existing is None) ==> MmapBuilder::fresh_ok(self@),
        ensures
            (match r {
                Ok(m) => {
                    &&& m.wf()
                    &&& m.is_file_backed() == self@.file_backed
                    &&& m.writable() == (self@.write || self@.mint)
                },
                Err(_) => !(self@.mint || existing is None),
            }),
            (self@.mint || existing is None) ==> (r matches Ok(m) && {
                &&& m.mem_bytes().len() == self@.size
                &&& m.spec_size() == self@.size
                &&& m.spec_max_size() == self@.max_size
                &&& info_magic(m.mem_bytes()) == MAGIC_NUMBER
                &&& info_vmaj(m.mem_bytes()) == VERS_MAJOR
                &&& info_vmin(m.mem_bytes()) == VERS_MINOR
                &&& info_nhdr(m.mem_bytes()) == 0
                &&& m.atoms() == self@.size as int / (ATOM_SIZE as int)
                &&& m.free_runs() == seq![
                    (1u32, (self@.size / ATOM_SIZE - 1) as u32),
                ]
                &&& m.free_atoms() == set_int_range(1, m.atoms())
            }),
            !self@.mint ==> (existing matches Some(bytes) ==> {
                let b = bytes@;
                &&& (r is Ok <==> image_valid(b))
                &&& (r matches Ok(m) ==> m.mem_bytes() == b)
                &&& (b.len() < ATOM_SIZE ==> r == Err::<Mmap, Error>(
                    Error::BadInfo { reason: InfoReason::BadSizeField, value: 0 },
                ))
                &&& (b.len() >= ATOM_SIZE ==> {
                    &&& (info_magic(b) == MAGIC_WRONG ==> r == Err::<Mmap, Error>(
                        Error::BadInfo {
                            reason: InfoReason::EndianMagic,
                            value: MAGIC_WRONG as u32,
                        },
                    ))
                    &&& (info_magic(b) != MAGIC_WRONG && info_magic(b) != MAGIC_NUMBER ==> r
                        == Err::<Mmap, Error>(
                        Error::BadInfo {
                            reason: InfoReason::WrongMagic,
                            value: info_magic(b) as u32,
                        },
                    ))
                    &&& (info_magic(b) == MAGIC_NUMBER && info_vmaj(b) != VERS_MAJOR ==> r == Err::<Mmap, Error>(
                        Error::BadInfo {
                            reason: InfoReason::WrongMajorVersion,
                            value: info_vmaj(b) as u32,
                        },
                    ))
                    &&& (info_magic(b) == MAGIC_NUMBER && info_vmaj(b) == VERS_MAJOR && info_vmin(
                        b,
                    ) > VERS_MINOR ==> r == Err::<Mmap, Error>(
                        Error::BadInfo {
                            reason: InfoReason::MinorVersionTooNew,
                            value: info_vmin(b) as u32,
                        },
                    ))
                    &&& (info_magic(b) == MAGIC_NUMBER && info_vmaj(b) == VERS_MAJOR && info_vmin(
                        b,
                    ) <= VERS_MINOR && !region_wf(b) ==> (r matches Err(e) && e == (Error::BadInfo {
                        reason: InfoReason::BadSizeField,
                        value: 0,
                    })))
                    &&& (region_wf(b) && r is Err ==> (r matches Err(e) && (e matches
                        Error::BadInfo { reason, .. } && reason == InfoReason::BadFreeList)))
                })
            }),
    {
        let write = self.write || self.mint;
        let file_backed = self.path.is_some();
        if self.mint || existing.is_none() {
            return Ok(stamp_fresh(self.size, self.max_size, file_backed, write));
        }
        let mem = existing.unwrap();
        let mlen = mem.len();
        if mlen < ATOM_SIZE {
            return Err(Error::BadInfo { reason: InfoReason::BadSizeField, value: 0 });
        }
        let magic = get_u16(&mem, MAGIC_OFF);
        if magic == MAGIC_WRONG {
            return Err(
                Error::BadInfo { reason: InfoReason::EndianMagic, value: MAGIC_WRONG as u32 },
            );
        }
        if magic != MAGIC_NUMBER {
            return Err(Error::BadInfo { reason: InfoReason::WrongMagic, value: magic as u32 });
        }
        let vmaj = get_u8(&mem, VMAJ_OFF);
        if vmaj != VERS_MAJOR {
            return Err(
                Error::BadInfo { reason: InfoReason::WrongMajorVersion, value: vmaj as u32 },
            );
        }
        let vmin = get_u8(&mem, VMIN_OFF);
        if vmin > VERS_MINOR {
            return Err(
                Error::BadInfo { reason: InfoReason::MinorVersionTooNew, value: vmin as u32 },
            );
        }
        let size64 = get_u64(&mem, SIZE_OFF);
        let max64 = get_u64(&mem, MAXSZ_OFF);
        if size64 % (ATOM_SIZE as u64) != 0 || size64 < ATOM_SIZE as u64 || size64 > mlen as u64
            || size64 / (ATOM_SIZE as u64) > u32::MAX as u64 || (max64 != 0 && size64 > max64) {
            return Err(Error::BadInfo { reason: InfoReason::BadSizeField, value: 0 });
        }
        assert(region_wf(mem@));
        match walk_free_list(&mem) {
            Ok(g) => {
                let m = Mmap { mem, file_backed, write, frees: Ghost(g@) };
                assert(image_valid(m.mem_bytes()));
                Ok(m)
            },
            Err(e) => Err(e),
        }
    }
}

/// An open region: the backing bytes, with the allocator's bookkeeping
/// living inside them.
pub struct Mmap {
    mem: Vec<u8>,
    file_backed: bool,
    write: bool,
    frees: Ghost<Seq<u32>>,
}

impl Mmap {
    /// The backing bytes.
    pub closed spec fn mem_bytes(self) -> Seq<u8> {
        self.mem@
    }

    /// The atom indices of the free runs, in list order.
    pub closed spec fn free_order(self) -> Seq<u32> {
        self.frees@
    }

    /// Whether mutation was allowed at open time.
    pub closed spec fn writable(self) -> bool {
        self.write
    }

    /// Whether a backing file stands behind the region.
    pub closed spec fn is_file_backed(self) -> bool {
        self.file_backed
    }

    /// A healthy region: acceptable header, well-formed free list.
    pub open spec fn wf(self) -> bool {
        &&& region_wf(self.mem_bytes())
        &&& list_wf(self.mem_bytes(), self.free_order())
    }

    /// Number of atoms in the region.
    pub open spec fn atoms(self) -> int {
        n_atoms(self.mem_bytes())
    }

    /// Current byte length recorded in the header.
    pub open spec fn spec_size(self) -> int {
        info_size(self.mem_bytes())
    }

    /// Size ceiling recorded in the header (0 for none).
    pub open spec fn spec_max_size(self) -> int {
        info_max(self.mem_bytes())
    }

    /// The free runs in list order, as (first atom, atom count) pairs.
    pub open spec fn free_runs(self) -> Seq<(u32, u32)> {
        Seq::new(
            self.free_order().len(),
            |i: int|
                (
                    self.free_order()[i],
                    node_size(self.mem_bytes(), self.free_order()[i] as int) as u32,
                ),
        )
    }

    /// The set of free atoms.
    pub open spec fn free_atoms(self) -> Set<int> {
        free_set(self.mem_bytes(), self.free_order())
    }

    /// Walks the free list for the first run of at least `count` atoms,
    /// returning the link that led there, the run's first atom (0 when no
    /// run fits), and the run's position in the list.
    fn find_fit(&self, count: u32) -> (r: (u32, u32, Ghost<int>))
        requires
            self.wf(),
            1 <= count,
        ensures
            ({
                let (prev, cur, k) = r;
                &&& 0 <= k@ <= self.free_order().len()
                &&& forall|i: int|
                    0 <= i < k@ ==> node_size(self.mem_bytes(), #[trigger] self.free_order()[i] as int)
                        < count
                &&& (cur == 0 ==> k@ == self.free_order().len())
                &&& (cur != 0 ==> {
                    &&& k@ < self.free_order().len()
                    &&& cur == self.free_order()[k@]
                    &&& node_size(self.mem_bytes(), cur as int) >= count
                    &&& (k@ == 0 ==> prev == 0)
                    &&& (k@ > 0 ==> prev == self.free_order()[k@ - 1])
                })
            }),
    {
        let ghost order = self.free_order();
        let mlen = self.mem.len();
        proof {
            lemma_atoms_exact(self.mem_bytes());
        }
        let mut prev: u32 = 0;
        let mut cur: u32 = get_u32(&self.mem, FREE_OFF);
        let ghost mut k: int = 0;
        proof {
            if order.len() > 0 {
                assert(node_ok(self.mem_bytes(), order, 0));
            }
        }
        while cur != 0
            invariant
                self.wf(),
                mlen == self.mem_bytes().len(),
                order == self.free_order(),
                0 <= k <= order.len(),
                forall|i: int|
                    0 <= i < k ==> node_size(self.mem_bytes(), #[trigger] order[i] as int) < count,
                cur == 0 ==> k == order.len(),
                cur != 0 ==> k < order.len() && cur == order[k],
                cur != 0 && k == 0 ==> prev == 0,
                cur != 0 && k > 0 ==> prev == order[k - 1],
            decreases order.len() - k,
        {
            proof {
                assert(node_ok(self.mem_bytes(), order, k));
                assert((cur as int + 1) * (ATOM_SIZE as int) <= n_atoms(self.mem_bytes()) * (
                ATOM_SIZE as int)) by (nonlinear_arith)
                    requires
                        cur as int + 1 <= n_atoms(self.mem_bytes()),
                ;
                lemma_atoms_exact(self.mem_bytes());
            }
            let base = (cur as usize) * ATOM_SIZE;
            let s = get_u32(&self.mem, base + NODE_SIZE_OFF);
            if s >= count {
                return (prev, cur, Ghost(k));
            }
            let nxt = get_u32(&self.mem, base + NODE_NEXT_OFF);
            proof {
                if k + 1 < order.len() {
                    assert(node_ok(self.mem_bytes(), order, k + 1));
                }
            }
            prev = cur;
            cur = nxt;
            proof {
                k = k + 1;
            }
        }
        (prev, cur, Ghost(k))
    }

    /// Serves `count` atoms out of the free list, best fit by first pass:
    /// the first run large enough either leaves the list whole (exact fit)
    /// or hands out its topmost atoms (split). Returns nothing when no run
    /// is large enough, leaving the region untouched.
    #[verifier::rlimit(100)]
    fn chunk_alloc_from_stock(&mut self, count: AtomCount) -> (r: Option<Atom>)
        requires
            old(self).wf(),
            old(self).writable(),
            1 <= count@,
        ensures
            final(self).wf(),
            final(self).writable() == old(self).writable(),
            final(self).is_file_backed() == old(self).is_file_backed(),
            final(self).spec_size() == old(self).spec_size(),
            final(self).spec_max_size() == old(self).spec_max_size(),
            final(self).atoms() == old(self).atoms(),
            final(self).mem_bytes().len() == old(self).mem_bytes().len(),
            owned_bytes_preserved(*old(self), *final(self)),
            match r {
                Some(a) => {
                    &&& 1 <= a@
                    &&& a@ + count@ <= old(self).atoms()
                    &&& set_int_range(a@ as int, a@ + count@).subset_of(old(self).free_atoms())
                    &&& final(self).free_atoms() == old(self).free_atoms().difference(
                        set_int_range(a@ as int, a@ + count@),
                    )
                    &&& exists|k: int|
                        {
                            &&& 0 <= k < old(self).free_runs().len()
                            &&& (forall|i: int|
                                0 <= i < k ==> (#[trigger] old(self).free_runs()[i]).1 < count@)
                            &&& old(self).free_runs()[k].1 >= count@
                            &&& a@ == old(self).free_runs()[k].0 + old(self).free_runs()[k].1
                                - count@
                            &&& final(self).free_runs() == (if old(self).free_runs()[k].1
                                == count@ {
                                old(self).free_runs().remove(k)
                            } else {
                                old(self).free_runs().update(
                                    k,
                                    (
                                        old(self).free_runs()[k].0,
                                        (old(self).free_runs()[k].1 - count@) as u32,
                                    ),
                                )
                            })
                        }
                },
                None => {
                    &&& *final(self) == *old(self)
                    &&& forall|i: int|
                        0 <= i < old(self).free_runs().len() ==> (#[trigger] old(
                            self,
                        ).free_runs()[i]).1 < count@
                },
            },
    {
        let ghost order = self.free_order();
        let ghost m1 = self.mem@;
        let _mlen = self.mem.len();
        let count = count.count();
        let (prev, cur, kg) = self.find_fit(count);
        let ghost k = kg@;
        if cur == 0 {
            proof {
                assert forall|i: int| 0 <= i < old(self).free_runs().len() implies (
                #[trigger] old(self).free_runs()[i]).1 < count by {
                    assert(node_ok(m1, order, i));
                    assert(node_size(m1, order[i] as int) < count);
                }
            }
            return None;
        }
        proof {
            assert(node_ok(m1, order, k));
            assert((cur as int + 1) * (ATOM_SIZE as int) <= n_atoms(m1) * (ATOM_SIZE as int))
                by (nonlinear_arith)
                requires
                    cur as int + 1 <= n_atoms(m1),
            ;
            lemma_atoms_exact(m1);
        }
        let base = (cur as usize) * ATOM_SIZE;
        let s = get_u32(&self.mem, base + NODE_SIZE_OFF);
        if s == count {
            // Exact fit: rewrite the link that pointed here to our
            // successor, unlinking the run.
            let nxt = get_u32(&self.mem, base + NODE_NEXT_OFF);
            if prev == 0 {
                put_u32(&mut self.mem, FREE_OFF, nxt);
            } else {
                proof {
                    assert(node_ok(m1, order, k - 1));
                    assert((prev as int + 1) * (ATOM_SIZE as int) <= n_atoms(m1) * (
                    ATOM_SIZE as int)) by (nonlinear_arith)
                        requires
                            prev as int + 1 <= n_atoms(m1),
                    ;
                }
                let pbase = (prev as usize) * ATOM_SIZE;
                put_u32(&mut self.mem, pbase + NODE_NEXT_OFF, nxt);
            }
            proof {
                let m2 = self.mem@;
                if k > 0 {
                    assert(node_ok(m1, order, k - 1));
                }
                let lo: int = if prev == 0 {
                    FREE_OFF as int
                } else {
                    node_base(prev as int) + NODE_NEXT_OFF
                };
                let hi: int = lo + 4;
                crate::layout::lemma_header_frame(m1, m2, lo, hi);
                assert forall|i: int|
                    0 <= i < order.len() && i != k && i != k - 1 implies #[trigger] crate::layout::node_same(
                    m1,
                    m2,
                    order[i] as int,
                ) by {
                    assert(node_ok(m1, order, i));
                    lemma_node_bytes_in_bounds(m1, order[i] as int);
                    crate::layout::lemma_node_frame(m1, m2, lo, hi, order[i] as int);
                }
                if k > 0 {
                    assert(node_ok(m1, order, k - 1));
                    crate::codec::lemma_le32_same(m1, m2, node_base(prev as int) + NODE_MAGIC_OFF);
                    crate::codec::lemma_le32_same(m1, m2, node_base(prev as int) + NODE_SIZE_OFF);
                }
                crate::layout::lemma_unlink(m1, m2, order, k);
                let newo = order.remove(k);
                self.frees = Ghost(newo);
                assert(final(self).free_atoms() =~= old(self).free_atoms().difference(
                    set_int_range(cur as int, cur as int + count),
                )) by {
                    assert(node_size(m1, cur as int) == count);
                    assert forall|x: int|
                        covered(m2, newo, x) <==> (covered(m1, order, x) && !(cur <= x
                            < cur as int + count)) by {
                        assert(covered(m2, order.remove(k), x) <==> (covered(m1, order, x)
                            && !in_run(m1, order, k, x)));
                        assert(in_run(m1, order, k, x) <==> (cur <= x < cur as int + count));
                    }
                }
                assert(set_int_range(cur as int, cur as int + count).subset_of(
                    old(self).free_atoms(),
                )) by {
                    assert forall|x: int| cur <= x < cur as int + count implies covered(
                        m1,
                        order,
                        x,
                    ) by {
                        assert(in_run(m1, order, k, x));
                    }
                }
                assert(final(self).free_runs() =~= old(self).free_runs().remove(k)) by {
                    assert forall|j: int| 0 <= j < newo.len() implies final(self).free_runs()[j]
                        == old(self).free_runs().remove(k)[j] by {
                        let oj = if j < k {
                            j
                        } else {
                            j + 1
                        };
                        assert(newo[j] == order[oj]);
                        if oj != k - 1 {
                            assert(crate::layout::node_same(m1, m2, order[oj] as int));
                        }
                    }
                }
                assert forall|i: int| 0 <= i < k implies (#[trigger] old(self).free_runs()[i]).1
                    < count by {
                    assert(node_ok(m1, order, i));
                    assert(node_size(m1, order[i] as int) < count);
                }
                assert(old(self).free_runs()[k].1 == count);
                assert(cur == old(self).free_runs()[k].0 + old(self).free_runs()[k].1 - count);
                assert forall|i: int|
                    (ATOM_SIZE as int) <= i < old(self).spec_size() && !old(
                        self,
                    ).free_atoms().contains(#[trigger] atom_of(i)) implies final(self).mem_bytes()[i] == old(self).mem_bytes()[i] by {
                    if lo <= i < hi {
                        lemma_atom_of_range(prev as int, i);
                        assert(in_run(m1, order, k - 1, prev as int));
                        assert(covered(m1, order, prev as int));
                    }
                }
            }
            return Some(Atom(cur));
        }
        // Split: the run keeps its bottom, we hand out its topmost atoms.
        let ns = s - count;
        put_u32(&mut self.mem, base + NODE_SIZE_OFF, ns);
        proof {
            let m2 = self.mem@;
            let lo: int = node_base(cur as int) + NODE_SIZE_OFF;
            let hi: int = lo + 4;
            crate::layout::lemma_header_frame(m1, m2, lo, hi);
            assert forall|i: int| 0 <= i < order.len() && i != k implies #[trigger] crate::layout::node_same(
                m1,
                m2,
                order[i] as int,
            ) by {
                assert(node_ok(m1, order, i));
                lemma_node_bytes_in_bounds(m1, order[i] as int);
                assert(order[i] != cur) by {
                    if order[i] == cur {
                        assert(order[i] + node_size(m1, order[i] as int) <= order[k] || order[k]
                            + node_size(m1, order[k] as int) <= order[i]);
                    }
                }
                crate::layout::lemma_node_frame(m1, m2, lo, hi, order[i] as int);
            }
            crate::codec::lemma_le32_same(m1, m2, node_base(cur as int) + NODE_MAGIC_OFF);
            crate::codec::lemma_le32_same(m1, m2, node_base(cur as int) + NODE_NEXT_OFF);
            crate::layout::lemma_shrink(m1, m2, order, k, count as int);
            assert(final(self).free_atoms() =~= old(self).free_atoms().difference(
                set_int_range(cur as int + ns, cur as int + s),
            ));
            assert(set_int_range(cur as int + ns, cur as int + s).subset_of(
                old(self).free_atoms(),
            )) by {
                assert forall|x: int| cur as int + ns <= x < cur as int + s implies covered(
                    m1,
                    order,
                    x,
                ) by {
                    assert(in_run(m1, order, k, x));
                }
            }
            assert(final(self).free_runs() =~= old(self).free_runs().update(
                k,
                (cur, ns),
            )) by {
                assert forall|j: int| 0 <= j < order.len() implies final(self).free_runs()[j]
                    == old(self).free_runs().update(k, (cur, ns))[j] by {
                    if j != k {
                        assert(node_ok(m1, order, j));
                        assert(crate::layout::node_same(m1, m2, order[j] as int));
                    }
                }
            }
            assert forall|i: int| 0 <= i < k implies (#[trigger] old(self).free_runs()[i]).1
                < count by {
                assert(node_ok(m1, order, i));
                assert(node_size(m1, order[i] as int) < count);
            }
            assert(old(self).free_runs()[k].1 == s);
            assert(old(self).free_runs()[k].1 > count);
            assert(cur + ns == old(self).free_runs()[k].0 + old(self).free_runs()[k].1 - count);
            assert forall|i: int|
                (ATOM_SIZE as int) <= i < old(self).spec_size() && !old(
                    self,
                ).free_atoms().contains(#[trigger] atom_of(i)) implies final(self).mem_bytes()[i]
                == old(self).mem_bytes()[i] by {
                if lo <= i < hi {
                    lemma_atom_of_range(cur as int, i);
                    assert(in_run(m1, order, k, cur as int));
                    assert(covered(m1, order, cur as int));
                }
            }
        }
        Some(Atom(cur + ns))
    }

    /// Whether an extension for `c` more requested atoms is refused: the
    /// region is anonymous, the grown size would pass the recorded ceiling,
    /// or the grown size cannot be addressed.
    pub open spec fn extension_refused(self, c: int) -> bool {
        let new_size = self.spec_size() + grow_spec(c) * (ATOM_SIZE as int);
        ||| !self.is_file_backed()
        ||| (self.spec_max_size() != 0 && new_size > self.spec_max_size())
        ||| new_size > usize::MAX
        ||| new_size / (ATOM_SIZE as int) > u32::MAX
    }

    /// Grows the region when the free list cannot serve `count` atoms: the
    /// backing bytes grow by `grow_spec` whole atoms, the topmost `count`
    /// new atoms are handed out, and the remainder is pushed at the head of
    /// the free list. Anonymous regions, a ceiling in the header, or an
    /// unaddressable new size refuse the extension and leave the region
    /// untouched.
    #[verifier::rlimit(100)]
    fn chunk_alloc_extend(&mut self, count: AtomCount) -> (r: Option<Atom>)
        requires
            old(self).wf(),
            old(self).writable(),
            1 <= count@,
        ensures
            final(self).wf(),
            final(self).writable() == old(self).writable(),
            final(self).is_file_backed() == old(self).is_file_backed(),
            final(self).spec_max_size() == old(self).spec_max_size(),
            owned_bytes_preserved(*old(self), *final(self)),
            match r {
                None => {
                    &&& *final(self) == *old(self)
                    &&& old(self).extension_refused(count@ as int)
                },
                Some(a) => {
                    &&& !old(self).extension_refused(count@ as int)
                    &&& final(self).atoms() == old(self).atoms() + grow_spec(count@ as int)
                    &&& final(self).spec_size() == old(self).spec_size() + grow_spec(
                        count@ as int,
                    ) * (ATOM_SIZE as int)
                    &&& a@ == old(self).atoms() + grow_spec(count@ as int) - count@
                    &&& a@ + count@ == final(self).atoms()
                    &&& old(self).atoms() < a@
                    &&& final(self).free_runs() == seq![
                        (old(self).atoms() as u32, (grow_spec(count@ as int) - count@) as u32),
                    ].add(old(self).free_runs())
                    &&& final(self).free_atoms() == old(self).free_atoms().union(
                        set_int_range(old(self).atoms(), a@ as int),
                    )
                },
            },
    {
        let ghost m1 = self.mem@;
        let ghost order = self.frees@;
        proof {
            lemma_atoms_exact(m1);
        }
        let count = count.count();
        let goal: u64 = (count as u64) * 2;
        let grow64: u64 = if goal < DEFAULT_COUNT as u64 {
            DEFAULT_COUNT as u64
        } else {
            crate::rounding::round_up_u64(goal, DEFAULT_COUNT as u64)
        };
        assert(grow64 == grow_spec(count as int));
        assert(2 * count <= grow64);
        let old_size64 = get_u64(&self.mem, SIZE_OFF);
        assert(old_size64 <= 0xFFFF_FFFFu64 * 4096) by {
            assert(n_atoms(m1) * (ATOM_SIZE as int) <= 0xFFFF_FFFF * 4096) by (nonlinear_arith)
                requires
                    n_atoms(m1) <= 0xFFFF_FFFF,
            ;
        }
        assert(grow64 * (ATOM_SIZE as u64) == grow_spec(count as int) * (ATOM_SIZE as int));
        let grow_bytes: u64 = grow64 * (ATOM_SIZE as u64);
        let new_size64: u64 = old_size64 + grow_bytes;
        if !self.file_backed {
            return None;
        }
        let max64 = get_u64(&self.mem, MAXSZ_OFF);
        if max64 != 0 && new_size64 > max64 {
            return None;
        }
        if new_size64 > usize::MAX as u64 {
            return None;
        }
        if new_size64 / (ATOM_SIZE as u64) > u32::MAX as u64 {
            return None;
        }
        proof {
            vstd::arithmetic::div_mod::lemma_fundamental_div_mod(
                new_size64 as int,
                ATOM_SIZE as int,
            );
            vstd::arithmetic::div_mod::lemma_fundamental_div_mod(
                old_size64 as int,
                ATOM_SIZE as int,
            );
        }
        let new_size = new_size64 as usize;
        let new_n64 = new_size64 / (ATOM_SIZE as u64);
        let old_n = (old_size64 / (ATOM_SIZE as u64)) as u32;
        assert(new_n64 == n_atoms(m1) + grow64) by {
            assert((n_atoms(m1) + grow64) * (ATOM_SIZE as int) == n_atoms(m1) * (ATOM_SIZE as int)
                + grow64 * (ATOM_SIZE as int)) by (nonlinear_arith);
            vstd::arithmetic::div_mod::lemma_div_multiples_vanish(
                n_atoms(m1) + grow64,
                ATOM_SIZE as int,
            );
        }
        // Grow the backing bytes to the new size with fresh zeroes.
        while self.mem.len() < new_size
            invariant
                m1.len() <= self.mem@.len(),
                forall|i: int| 0 <= i < m1.len() ==> self.mem@[i] == m1[i],
                self.mem@.len() <= new_size || self.mem@.len() == m1.len(),
                self.write == old(self).write,
                self.file_backed == old(self).file_backed,
                self.frees == old(self).frees,
            decreases new_size - self.mem@.len(),
        {
            self.mem.push(0u8);
        }
        let ghost g1 = self.mem@;
        proof {
            // The grown bytes leave every header and node field in place.
            crate::codec::lemma_le16_same(m1, g1, MAGIC_OFF as int);
            crate::codec::lemma_le64_same(m1, g1, SIZE_OFF as int);
            crate::codec::lemma_le64_same(m1, g1, MAXSZ_OFF as int);
            crate::codec::lemma_le32_same(m1, g1, FREE_OFF as int);
            assert forall|i: int| 0 <= i < order.len() implies #[trigger] crate::layout::node_same(
                m1,
                g1,
                order[i] as int,
            ) by {
                assert(node_ok(m1, order, i));
                lemma_node_bytes_in_bounds(m1, order[i] as int);
                crate::codec::lemma_le32_same(m1, g1, node_base(order[i] as int) + NODE_MAGIC_OFF);
                crate::codec::lemma_le32_same(m1, g1, node_base(order[i] as int) + NODE_SIZE_OFF);
                crate::codec::lemma_le32_same(m1, g1, node_base(order[i] as int) + NODE_NEXT_OFF);
            }
        }
        put_u64(&mut self.mem, SIZE_OFF, new_size64);
        let ghost g2 = self.mem@;
        proof {
            crate::layout::lemma_header_frame(g1, g2, SIZE_OFF as int, SIZE_OFF + 8);
            assert forall|i: int| 0 <= i < order.len() implies #[trigger] crate::layout::node_same(
                g1,
                g2,
                order[i] as int,
            ) by {
                assert(node_ok(m1, order, i));
                lemma_node_bytes_in_bounds(m1, order[i] as int);
                crate::layout::lemma_node_frame(
                    g1,
                    g2,
                    SIZE_OFF as int,
                    SIZE_OFF + 8,
                    order[i] as int,
                );
            }
            assert(region_wf(g2));
            assert forall|i: int| 0 <= i < order.len() implies #[trigger] node_ok(g2, order, i) by {
                assert(node_ok(m1, order, i));
                assert(crate::layout::node_same(m1, g1, order[i] as int));
                assert(crate::layout::node_same(g1, g2, order[i] as int));
            }
            assert(runs_disjoint(g2, order)) by {
                assert forall|i: int, j: int|
                    0 <= i < order.len() && 0 <= j < order.len() && i != j implies (order[i]
                    + node_size(g2, order[i] as int) <= order[j] || order[j] + node_size(
                    g2,
                    order[j] as int,
                ) <= order[i]) by {
                    assert(crate::layout::node_same(m1, g1, order[i] as int));
                    assert(crate::layout::node_same(g1, g2, order[i] as int));
                    assert(crate::layout::node_same(m1, g1, order[j] as int));
                    assert(crate::layout::node_same(g1, g2, order[j] as int));
                }
            }
            assert(list_wf(g2, order));
        }
        let grow32: u32 = grow64 as u32;
        let left: u32 = grow32 - count;
        let na: u32 = old_n + left;
        assert(1 <= left);
        assert(old_n as int + 1 <= n_atoms(g2));
        proof {
            lemma_node_bytes_in_bounds(g2, old_n as int);
            lemma_atoms_exact(g2);
        }
        let root = get_u32(&self.mem, FREE_OFF);
        let nbase = (old_n as usize) * ATOM_SIZE;
        put_u32(&mut self.mem, nbase + NODE_MAGIC_OFF, FREE_MAGIC);
        let ghost h1 = self.mem@;
        put_u32(&mut self.mem, nbase + NODE_SIZE_OFF, left);
        let ghost h2 = self.mem@;
        put_u32(&mut self.mem, nbase + NODE_NEXT_OFF, root);
        let ghost h3 = self.mem@;
        put_u32(&mut self.mem, FREE_OFF, old_n);
        let ghost g3 = self.mem@;
        proof {
            let nb = node_base(old_n as int);
            // The remainder node's own fields, written in order, survive the
            // later writes.
            assert(node_magic(g3, old_n as int) == FREE_MAGIC) by {
                assert(forall|i: int| nb <= i < nb + 4 ==> g3[i] == h1[i]);
                crate::codec::lemma_le32_same(h1, g3, nb + NODE_MAGIC_OFF);
            }
            assert(node_size(g3, old_n as int) == left) by {
                assert(forall|i: int| nb + 4 <= i < nb + 8 ==> g3[i] == h2[i]);
                crate::codec::lemma_le32_same(h2, g3, nb + NODE_SIZE_OFF);
            }
            assert(node_next(g3, old_n as int) == root) by {
                assert(forall|i: int| nb + 8 <= i < nb + 12 ==> g3[i] == h3[i]);
                crate::codec::lemma_le32_same(h3, g3, nb + NODE_NEXT_OFF);
            }
            // Header fields other than the free root are untouched.
            assert(info_size(g3) == info_size(g2)) by {
                crate::codec::lemma_le64_same(g2, g3, SIZE_OFF as int);
            }
            assert(info_magic(g3) == info_magic(g2)) by {
                crate::codec::lemma_le16_same(g2, g3, MAGIC_OFF as int);
            }
            assert(info_max(g3) == info_max(g2)) by {
                crate::codec::lemma_le64_same(g2, g3, MAXSZ_OFF as int);
            }
            assert(info_free(g3) == old_n);
            // Existing nodes lie below the old end of the region.
            assert forall|i: int| 0 <= i < order.len() implies #[trigger] crate::layout::node_same(
                g2,
                g3,
                order[i] as int,
            ) by {
                assert(node_ok(g2, order, i));
                assert(node_ok(m1, order, i));
                assert(crate::layout::node_same(m1, g1, order[i] as int));
                assert(crate::layout::node_same(g1, g2, order[i] as int));
                lemma_node_bytes_in_bounds(m1, order[i] as int);
                assert(node_base(order[i] as int) + crate::layout::NODE_HEADER_SIZE <= nb) by {
                    assert((order[i] as int + 1) * (ATOM_SIZE as int) <= n_atoms(m1) * (
                    ATOM_SIZE as int)) by (nonlinear_arith)
                        requires
                            order[i] as int + 1 <= n_atoms(m1),
                    ;
                    lemma_atoms_exact(m1);
                }
                crate::codec::lemma_le32_same(g2, g3, node_base(order[i] as int) + NODE_MAGIC_OFF);
                crate::codec::lemma_le32_same(g2, g3, node_base(order[i] as int) + NODE_SIZE_OFF);
                crate::codec::lemma_le32_same(g2, g3, node_base(order[i] as int) + NODE_NEXT_OFF);
            }
            assert forall|x: int| old_n <= x < old_n + left implies !covered(g2, order, x) by {
                if covered(g2, order, x) {
                    let i = choose|i: int| in_run(g2, order, i, x);
                    assert(crate::layout::node_same(m1, g1, order[i] as int));
                    assert(crate::layout::node_same(g1, g2, order[i] as int));
                    assert(in_run(m1, order, i, x));
                    assert(node_ok(m1, order, i));
                }
            }
            crate::layout::lemma_insert(g2, g3, order, 0, old_n);
            let newo = order.insert(0, old_n);
            self.frees = Ghost(newo);
            assert(final(self).free_runs() =~= seq![(old_n, left)].add(old(self).free_runs())) by {
                assert forall|j: int| 0 <= j < newo.len() implies final(self).free_runs()[j]
                    == seq![(old_n, left)].add(old(self).free_runs())[j] by {
                    if j > 0 {
                        assert(newo[j] == order[j - 1]);
                        assert(crate::layout::node_same(m1, g1, order[j - 1] as int));
                        assert(crate::layout::node_same(g1, g2, order[j - 1] as int));
                        assert(crate::layout::node_same(g2, g3, order[j - 1] as int));
                    }
                }
            }
            assert(final(self).free_atoms() =~= old(self).free_atoms().union(
                set_int_range(old(self).atoms(), na as int),
            )) by {
                assert forall|x: int| covered(m1, order, x) <==> covered(g2, order, x) by {
                    if covered(m1, order, x) {
                        let i = choose|i: int| in_run(m1, order, i, x);
                        assert(crate::layout::node_same(m1, g1, order[i] as int));
                        assert(crate::layout::node_same(g1, g2, order[i] as int));
                        assert(in_run(g2, order, i, x));
                    }
                    if covered(g2, order, x) {
                        let i = choose|i: int| in_run(g2, order, i, x);
                        assert(crate::layout::node_same(m1, g1, order[i] as int));
                        assert(crate::layout::node_same(g1, g2, order[i] as int));
                        assert(in_run(m1, order, i, x));
                    }
                }
                assert forall|x: int|
                    covered(g3, newo, x) <==> (covered(m1, order, x) || (old_n <= x
                        < na as int)) by {
                    crate::layout::lemma_insert(g2, g3, order, 0, old_n);
                    assert(covered(g3, order.insert(0, old_n), x) <==> (covered(g2, order, x) || (
                    old_n <= x < old_n as int + left)));
                }
                assert forall|x: int|
                    final(self).free_atoms().contains(x) <==> (old(self).free_atoms().contains(x)
                        || set_int_range(old(self).atoms(), na as int).contains(x)) by {
                    assert(covered(g3, newo, x) <==> (covered(m1, order, x) || (old_n <= x
                        < na as int)));
                }
            }
            assert forall|i: int|
                (ATOM_SIZE as int) <= i < old(self).spec_size() && !old(
                    self,
                ).free_atoms().contains(#[trigger] atom_of(i)) implies final(self).mem_bytes()[i]
                == old(self).mem_bytes()[i] by {
                assert(i < node_base(old_n as int));
            }
        }
        Some(Atom(na))
    }

    /// Allocates `size` bytes' worth of atoms: the request is served out of
    /// the free list when a run fits, and the region is extended when none
    /// does. A request of zero bytes, one too large to count in atoms, or
    /// one that no run fits and no extension can serve, is refused with the
    /// region untouched.
    #[verifier::rlimit(100)]
    pub fn chunk_alloc(&mut self, size: usize) -> (r: Option<Atom>)
        requires
            old(self).wf(),
            old(self).writable(),
        ensures
            final(self).wf(),
            final(self).writable() == old(self).writable(),
            final(self).is_file_backed() == old(self).is_file_backed(),
            final(self).spec_max_size() == old(self).spec_max_size(),
            final(self).atoms() >= old(self).atoms(),
            owned_bytes_preserved(*old(self), *final(self)),
            r is None ==> {
                &&& *final(self) == *old(self)
                &&& (size == 0 || num_atoms_spec(size as int) > u32::MAX || {
                    let c = num_atoms_spec(size as int);
                    &&& (forall|i: int|
                        0 <= i < old(self).free_runs().len() ==> (#[trigger] old(
                            self,
                        ).free_runs()[i]).1 < c)
                    &&& old(self).extension_refused(c)
                })
            },
            r matches Some(a) ==> {
                let c = num_atoms_spec(size as int);
                &&& 1 <= c <= u32::MAX
                &&& 1 <= a@
                &&& a@ + c <= final(self).atoms()
                &&& set_int_range(a@ as int, a@ + c).subset_of(
                    old(self).free_atoms().union(
                        set_int_range(old(self).atoms(), final(self).atoms()),
                    ),
                )
                &&& final(self).free_atoms() == old(self).free_atoms().union(
                    set_int_range(old(self).atoms(), final(self).atoms()),
                ).difference(set_int_range(a@ as int, a@ + c))
                &&& ((exists|i: int|
                    0 <= i < old(self).free_runs().len() && (#[trigger] old(
                        self,
                    ).free_runs()[i]).1 >= c) ==> {
                    &&& final(self).atoms() == old(self).atoms()
                    &&& exists|k: int|
                        #![trigger old(self).free_runs()[k]]
                        {
                            &&& 0 <= k < old(self).free_runs().len()
                            &&& (forall|i: int|
                                0 <= i < k ==> (#[trigger] old(self).free_runs()[i]).1 < c)
                            &&& old(self).free_runs()[k].1 >= c
                            &&& a@ == old(self).free_runs()[k].0 + old(self).free_runs()[k].1 - c
                            &&& final(self).free_runs() == (if old(self).free_runs()[k].1 == c {
                                old(self).free_runs().remove(k)
                            } else {
                                old(self).free_runs().update(
                                    k,
                                    (
                                        old(self).free_runs()[k].0,
                                        (old(self).free_runs()[k].1 - c) as u32,
                                    ),
                                )
                            })
                        }
                })
                &&& (!(exists|i: int|
                    0 <= i < old(self).free_runs().len() && (#[trigger] old(
                        self,
                    ).free_runs()[i]).1 >= c) ==> {
                    &&& final(self).atoms() == old(self).atoms() + grow_spec(c)
                    &&& a@ == old(self).atoms() + grow_spec(c) - c
                    &&& final(self).free_runs() == seq![
                        (old(self).atoms() as u32, (grow_spec(c) - c) as u32),
                    ].add(old(self).free_runs())
                })
            },
    {
        if size == 0 {
            return None;
        }
        let c64 = ((size - 1) as u64) / (ATOM_SIZE as u64) + 1;
        proof {
            vstd::arithmetic::div_mod::lemma_div_plus_one(size - 1, ATOM_SIZE as int);
        }
        if c64 > u32::MAX as u64 {
            return None;
        }
        let count = AtomCount(c64 as u32);
        let rc = self.chunk_alloc_from_stock(count);
        match rc {
            Some(a) => {
                proof {
                    assert(set_int_range(old(self).atoms(), final(self).atoms())
                        =~= Set::<int>::empty());
                    assert(old(self).free_atoms().union(Set::<int>::empty()) =~= old(
                        self,
                    ).free_atoms());
                    let runs = old(self).free_runs();
                    let k = choose|k: int|
                        {
                            &&& 0 <= k < runs.len()
                            &&& (forall|i: int| 0 <= i < k ==> (#[trigger] runs[i]).1 < count@)
                            &&& runs[k].1 >= count@
                            &&& a@ == runs[k].0 + runs[k].1 - count@
                            &&& final(self).free_runs() == (if runs[k].1 == count@ {
                                runs.remove(k)
                            } else {
                                runs.update(k, (runs[k].0, (runs[k].1 - count@) as u32))
                            })
                        };
                    assert(0 <= k < runs.len() && runs[k].1 >= count@);
                }
                Some(a)
            },
            None => {
                let rc2 = self.chunk_alloc_extend(count);
                proof {
                    match rc2 {
                        Some(a) => {
                            crate::layout::lemma_covered_in_range(
                                old(self).mem_bytes(),
                                old(self).free_order(),
                            );
                            assert(final(self).free_atoms() =~= old(self).free_atoms().union(
                                set_int_range(old(self).atoms(), final(self).atoms()),
                            ).difference(
                                set_int_range(a@ as int, a@ as int + count@),
                            ));
                            assert(set_int_range(a@ as int, a@ as int + count@).subset_of(
                                old(self).free_atoms().union(
                                    set_int_range(old(self).atoms(), final(self).atoms()),
                                ),
                            ));
                        },
                        None => {},
                    }
                }
                rc2
            },
        }
    }

    /// Walks the free list for the place a run of `count` atoms goes when
    /// sizes are kept non-increasing: in front of the first run no larger
    /// than `count`. Returns the link that leads there, the run standing
    /// there (0 at the end of the list), and its position.
    fn find_insert(&self, count: u32) -> (r: (u32, u32, Ghost<int>))
        requires
            self.wf(),
        ensures
            ({
                let (prev, cur, k) = r;
                &&& 0 <= k@ <= self.free_order().len()
                &&& forall|i: int|
                    0 <= i < k@ ==> node_size(self.mem_bytes(), #[trigger] self.free_order()[i] as int)
                        > count
                &&& (k@ < self.free_order().len() ==> {
                    &&& cur == self.free_order()[k@]
                    &&& node_size(self.mem_bytes(), cur as int) <= count
                })
                &&& (k@ == self.free_order().len() ==> cur == 0)
                &&& (k@ == 0 ==> prev == 0)
                &&& (k@ > 0 ==> prev == self.free_order()[k@ - 1])
            }),
    {
        let ghost order = self.free_order();
        let mlen = self.mem.len();
        proof {
            lemma_atoms_exact(self.mem_bytes());
        }
        let mut prev: u32 = 0;
        let mut cur: u32 = get_u32(&self.mem, FREE_OFF);
        let ghost mut k: int = 0;
        proof {
            if order.len() > 0 {
                assert(node_ok(self.mem_bytes(), order, 0));
            }
        }
        while cur != 0
            invariant
                self.wf(),
                mlen == self.mem_bytes().len(),
                order == self.free_order(),
                0 <= k <= order.len(),
                forall|i: int|
                    0 <= i < k ==> node_size(self.mem_bytes(), #[trigger] order[i] as int) > count,
                cur == 0 ==> k == order.len(),
                cur != 0 ==> k < order.len() && cur == order[k],
                k == 0 ==> prev == 0,
                k > 0 ==> prev == order[k - 1],
            decreases order.len() - k,
        {
            proof {
                assert(node_ok(self.mem_bytes(), order, k));
                assert((cur as int + 1) * (ATOM_SIZE as int) <= n_atoms(self.mem_bytes()) * (
                ATOM_SIZE as int)) by (nonlinear_arith)
                    requires
                        cur as int + 1 <= n_atoms(self.mem_bytes()),
                ;
                lemma_atoms_exact(self.mem_bytes());
            }
            let base = (cur as usize) * ATOM_SIZE;
            let s = get_u32(&self.mem, base + NODE_SIZE_OFF);
            if count >= s {
                return (prev, cur, Ghost(k));
            }
            let nxt = get_u32(&self.mem, base + NODE_NEXT_OFF);
            proof {
                if k + 1 < order.len() {
                    assert(node_ok(self.mem_bytes(), order, k + 1));
                }
            }
            prev = cur;
            cur = nxt;
            proof {
                k = k + 1;
            }
        }
        (prev, cur, Ghost(k))
    }

    /// Returns the `size`-byte allocation that starts at `atom` to the free
    /// list. The run is inserted in front of the first run no larger than
    /// it, which keeps a size-ordered list size-ordered. The caller owes the
    /// atom range it was handed: the range must lie inside the region and
    /// outside every free run.
    #[verifier::rlimit(100)]
    pub fn chunk_free(&mut self, atom: Atom, size: usize)
        requires
            old(self).wf(),
            old(self).writable(),
            1 <= size,
            1 <= atom@,
            atom@ + num_atoms_spec(size as int) <= old(self).atoms(),
            set_int_range(atom@ as int, atom@ + num_atoms_spec(size as int)).disjoint(
                old(self).free_atoms(),
            ),
        ensures
            final(self).wf(),
            final(self).writable() == old(self).writable(),
            final(self).is_file_backed() == old(self).is_file_backed(),
            final(self).spec_size() == old(self).spec_size(),
            final(self).spec_max_size() == old(self).spec_max_size(),
            final(self).atoms() == old(self).atoms(),
            final(self).free_atoms() == old(self).free_atoms().union(
                set_int_range(atom@ as int, atom@ + num_atoms_spec(size as int)),
            ),
            forall|i: int|
                (ATOM_SIZE as int) <= i < old(self).spec_size() && !old(
                    self,
                ).free_atoms().contains(#[trigger] atom_of(i)) && !(node_base(atom@ as int) <= i
                    < node_base(atom@ as int) + crate::layout::NODE_HEADER_SIZE) ==> final(self).mem_bytes()[i] == old(self).mem_bytes()[i],
            exists|k: int|
                #![trigger old(self).free_runs().insert(k, (atom@, num_atoms_spec(size as int) as u32))]
                {
                    let c = num_atoms_spec(size as int);
                    &&& 0 <= k <= old(self).free_runs().len()
                    &&& (forall|i: int|
                        0 <= i < k ==> (#[trigger] old(self).free_runs()[i]).1 > c)
                    &&& (k < old(self).free_runs().len() ==> old(self).free_runs()[k].1 <= c)
                    &&& final(self).free_runs() == old(self).free_runs().insert(
                        k,
                        (atom@, c as u32),
                    )
                },
    {
        let ghost m1 = self.mem@;
        let ghost order = self.free_order();
        let _mlen = self.mem.len();
        proof {
            lemma_atoms_exact(m1);
        }
        let count = num_atoms_needed(size, ATOM_SHIFT).count();
        let a = atom.atom();
        let (prev, cur, kg) = self.find_insert(count);
        let ghost k = kg@;
        proof {
            lemma_node_bytes_in_bounds(m1, a as int);
            if k > 0 {
                assert(node_ok(m1, order, k - 1));
                assert((prev as int + 1) * (ATOM_SIZE as int) <= n_atoms(m1) * (ATOM_SIZE as int))
                    by (nonlinear_arith)
                    requires
                        prev as int + 1 <= n_atoms(m1),
                ;
            }
            assert forall|x: int| a <= x < a as int + count implies !covered(m1, order, x) by {
                assert(set_int_range(atom@ as int, atom@ + num_atoms_spec(size as int)).contains(
                    x,
                ));
            }
            assert forall|i: int| 0 <= i < order.len() implies order[i] != a by {
                if order[i] == a {
                    assert(node_ok(m1, order, i));
                    assert(in_run(m1, order, i, a as int));
                    assert(covered(m1, order, a as int));
                }
            }
        }
        let abase = (a as usize) * ATOM_SIZE;
        put_u32(&mut self.mem, abase + NODE_MAGIC_OFF, FREE_MAGIC);
        let ghost h1 = self.mem@;
        put_u32(&mut self.mem, abase + NODE_SIZE_OFF, count);
        let ghost h2 = self.mem@;
        put_u32(&mut self.mem, abase + NODE_NEXT_OFF, cur);
        let ghost h3 = self.mem@;
        if prev == 0 {
            put_u32(&mut self.mem, FREE_OFF, a);
        } else {
            let pbase = (prev as usize) * ATOM_SIZE;
            put_u32(&mut self.mem, pbase + NODE_NEXT_OFF, a);
        }
        let ghost g = self.mem@;
        proof {
            let nb = node_base(a as int);
            assert(node_magic(g, a as int) == FREE_MAGIC) by {
                assert(forall|i: int| nb <= i < nb + 4 ==> g[i] == h1[i]);
                crate::codec::lemma_le32_same(h1, g, nb + NODE_MAGIC_OFF);
            }
            assert(node_size(g, a as int) == count) by {
                assert(forall|i: int| nb + 4 <= i < nb + 8 ==> g[i] == h2[i]);
                crate::codec::lemma_le32_same(h2, g, nb + NODE_SIZE_OFF);
            }
            assert(node_next(g, a as int) == cur) by {
                assert(forall|i: int| nb + 8 <= i < nb + 12 ==> g[i] == h3[i]);
                crate::codec::lemma_le32_same(h3, g, nb + NODE_NEXT_OFF);
            }
            assert(info_size(g) == info_size(m1)) by {
                crate::codec::lemma_le64_same(m1, g, SIZE_OFF as int);
            }
            assert(info_magic(g) == info_magic(m1)) by {
                crate::codec::lemma_le16_same(m1, g, MAGIC_OFF as int);
            }
            assert(info_max(g) == info_max(m1)) by {
                crate::codec::lemma_le64_same(m1, g, MAXSZ_OFF as int);
            }
            assert(info_nhdr(g) == info_nhdr(m1)) by {
                crate::codec::lemma_le32_same(m1, g, NHDR_OFF as int);
            }
            if prev == 0 {
                assert(info_free(g) == a);
            } else {
                assert(info_free(g) == info_free(m1)) by {
                    crate::codec::lemma_le32_same(m1, g, FREE_OFF as int);
                }
            }
            assert forall|i: int| 0 <= i < order.len() && i != k - 1 implies #[trigger] crate::layout::node_same(
                m1,
                g,
                order[i] as int,
            ) by {
                assert(node_ok(m1, order, i));
                lemma_node_bytes_in_bounds(m1, order[i] as int);
                let ob = node_base(order[i] as int);
                assert(forall|x: int| ob <= x < ob + 12 ==> g[x] == m1[x]);
                crate::codec::lemma_le32_same(m1, g, ob + NODE_MAGIC_OFF);
                crate::codec::lemma_le32_same(m1, g, ob + NODE_SIZE_OFF);
                crate::codec::lemma_le32_same(m1, g, ob + NODE_NEXT_OFF);
            }
            if k > 0 {
                assert(node_ok(m1, order, k - 1));
                let pb = node_base(prev as int);
                crate::codec::lemma_le32_same(m1, g, pb + NODE_MAGIC_OFF);
                crate::codec::lemma_le32_same(m1, g, pb + NODE_SIZE_OFF);
                assert(node_next(g, prev as int) == a);
            }
            crate::layout::lemma_insert(m1, g, order, k, a);
            let newo = order.insert(k, a);
            self.frees = Ghost(newo);
            assert(final(self).free_atoms() =~= old(self).free_atoms().union(
                set_int_range(atom@ as int, atom@ + num_atoms_spec(size as int)),
            ));
            assert forall|i: int| 0 <= i < k implies (#[trigger] old(self).free_runs()[i]).1
                > count by {
                assert(node_ok(m1, order, i));
                assert(node_size(m1, order[i] as int) > count);
            }
            if k < order.len() as int {
                assert(node_ok(m1, order, k));
            }
            assert forall|i: int|
                (ATOM_SIZE as int) <= i < old(self).spec_size() && !old(
                    self,
                ).free_atoms().contains(#[trigger] atom_of(i)) && !(node_base(a as int) <= i
                    < node_base(a as int) + crate::layout::NODE_HEADER_SIZE) implies final(self).mem_bytes()[i] == old(self).mem_bytes()[i] by {
                if node_base(a as int) <= i < node_base(a as int) + ATOM_SIZE {
                    lemma_atom_of_range(a as int, i);
                }
                if k > 0 {
                    let pb = node_base(prev as int);
                    if pb + NODE_NEXT_OFF <= i < pb + NODE_NEXT_OFF + 4 {
                        lemma_atom_of_range(prev as int, i);
                        assert(in_run(m1, order, k - 1, prev as int));
                        assert(covered(m1, order, prev as int));
                    }
                }
            }
            assert(final(self).free_runs() =~= old(self).free_runs().insert(
                k,
                (a, count),
            )) by {
                assert forall|j: int| 0 <= j < newo.len() implies final(self).free_runs()[j]
                    == old(self).free_runs().insert(k, (a, count))[j] by {
                    if j != k {
                        let oj = if j < k {
                            j
                        } else {
                            j - 1
                        };
                        assert(newo[j] == order[oj]);
                        if oj != k - 1 {
                            assert(crate::layout::node_same(m1, g, order[oj] as int));
                        }
                    } else {
                        assert(newo[j] == a);
                    }
                }
            }
        }
    }

    /// Walks the free list and returns each run as a (first atom, length)
    /// pair, in list order: the diagnostic view of the allocator's state.
    /// Under the region invariant the list is acyclic, so the walk visits
    /// each run once and the cycle check the on-disk walk calls for cannot
    /// fire.
    pub fn dump(&self) -> (r: Vec<(u32, u32)>)
        requires
            self.wf(),
        ensures
            r@ == self.free_runs(),
    {
        let ghost order = self.free_order();
        let mlen = self.mem.len();
        proof {
            lemma_atoms_exact(self.mem_bytes());
        }
        let mut v: Vec<(u32, u32)> = Vec::new();
        let mut cur: u32 = get_u32(&self.mem, FREE_OFF);
        let ghost mut k: int = 0;
        proof {
            if order.len() > 0 {
                assert(node_ok(self.mem_bytes(), order, 0));
            }
        }
        while cur != 0
            invariant
                self.wf(),
                mlen == self.mem_bytes().len(),
                order == self.free_order(),
                0 <= k <= order.len(),
                v@.len() == k,
                forall|j: int| 0 <= j < k ==> v@[j] == #[trigger] self.free_runs()[j],
                cur == 0 ==> k == order.len(),
                cur != 0 ==> k < order.len() && cur == order[k],
            decreases order.len() - k,
        {
            proof {
                assert(node_ok(self.mem_bytes(), order, k));
                assert((cur as int + 1) * (ATOM_SIZE as int) <= n_atoms(self.mem_bytes()) * (
                ATOM_SIZE as int)) by (nonlinear_arith)
                    requires
                        cur as int + 1 <= n_atoms(self.mem_bytes()),
                ;
                lemma_atoms_exact(self.mem_bytes());
            }
            let base = (cur as usize) * ATOM_SIZE;
            let s = get_u32(&self.mem, base + NODE_SIZE_OFF);
            let nxt = get_u32(&self.mem, base + NODE_NEXT_OFF);
            v.push((cur, s));
            proof {
                if k + 1 < order.len() {
                    assert(node_ok(self.mem_bytes(), order, k + 1));
                }
                k = k + 1;
            }
            cur = nxt;
        }
        proof {
            assert(v@ =~= self.free_runs());
        }
        v
    }

    /// Walks the free list marking every covered atom, counting an atom
    /// covered twice as an error and, when `all_free` is asked, an unmarked
    /// atom past the header too. Under the region invariant no atom is
    /// covered twice, so the count is zero exactly when either nothing but
    /// coverage was asked, or every atom past the header is free.
    #[verifier::rlimit(100)]
    pub fn chunk_check(&self, all_free: bool) -> (errs: usize)
        requires
            self.wf(),
        ensures
            !all_free ==> errs == 0,
            errs == 0 <==> (!all_free || (forall|x: int|
                1 <= x < self.atoms() ==> self.free_atoms().contains(x))),
            all_free ==> errs == set_int_range(1, self.atoms()).difference(
                self.free_atoms(),
            ).len(),
    {
        let ghost order = self.free_order();
        let ghost m = self.mem_bytes();
        let mlen = self.mem.len();
        proof {
            lemma_atoms_exact(m);
        }
        let size64 = get_u64(&self.mem, SIZE_OFF);
        let n = (size64 / (ATOM_SIZE as u64)) as u32;
        let mut seen = unmarked(n as usize);
        let mut cur: u32 = get_u32(&self.mem, FREE_OFF);
        let ghost mut k: int = 0;
        proof {
            if order.len() > 0 {
                assert(node_ok(m, order, 0));
            }
        }
        while cur != 0
            invariant
                self.wf(),
                m == self.mem_bytes(),
                mlen == m.len(),
                order == self.free_order(),
                n as int == n_atoms(m),
                seen@.len() == n,
                0 <= k <= order.len(),
                forall|x: int|
                    0 <= x < n ==> (seen@[x] <==> crate::layout::covered_prefix(m, order, k, x)),
                cur == 0 ==> k == order.len(),
                cur != 0 ==> k < order.len() && cur == order[k],
            decreases order.len() - k,
        {
            proof {
                assert(node_ok(m, order, k));
                assert((cur as int + 1) * (ATOM_SIZE as int) <= n_atoms(m) * (ATOM_SIZE as int))
                    by (nonlinear_arith)
                    requires
                        cur as int + 1 <= n_atoms(m),
                ;
                lemma_atoms_exact(m);
            }
            let base = (cur as usize) * ATOM_SIZE;
            let s = get_u32(&self.mem, base + NODE_SIZE_OFF);
            let nxt = get_u32(&self.mem, base + NODE_NEXT_OFF);
            let cur_end = cur + s;
            let mut j = cur;
            while j < cur_end
                invariant
                    self.wf(),
                    m == self.mem_bytes(),
                    order == self.free_order(),
                    n as int == n_atoms(m),
                    seen@.len() == n,
                    0 <= k < order.len(),
                    cur == order[k],
                    cur <= j <= cur_end,
                    cur_end == cur + s,
                    s == node_size(m, cur as int),
                    cur_end <= n,
                    forall|x: int|
                        0 <= x < n ==> (seen@[x] <==> crate::layout::covered_prefix(m, order, k, x)
                            || (cur <= x < j)),
                decreases cur_end - j,
            {
                proof {
                    assert(!crate::layout::covered_prefix(m, order, k, j as int)) by {
                        if crate::layout::covered_prefix(m, order, k, j as int) {
                            let i = choose|i: int|
                                0 <= i < k && in_run(m, order, i, j as int);
                            assert(node_ok(m, order, i));
                            assert(runs_disjoint(m, order));
                            assert(order[i] + node_size(m, order[i] as int) <= order[k] || order[k]
                                + node_size(m, order[k] as int) <= order[i]);
                        }
                    }
                }
                seen.set(j as usize, true);
                j = j + 1;
            }
            proof {
                assert forall|x: int|
                    0 <= x < n implies (seen@[x] <==> crate::layout::covered_prefix(
                    m,
                    order,
                    k + 1,
                    x,
                )) by {
                    if crate::layout::covered_prefix(m, order, k + 1, x) {
                        let i = choose|i: int| 0 <= i < k + 1 && in_run(m, order, i, x);
                        if i == k {
                            assert(cur <= x < cur_end);
                        } else {
                            assert(crate::layout::covered_prefix(m, order, k, x));
                        }
                    }
                    if seen@[x] {
                        if crate::layout::covered_prefix(m, order, k, x) {
                            let i = choose|i: int| 0 <= i < k && in_run(m, order, i, x);
                            assert(0 <= i < k + 1 && in_run(m, order, i, x));
                        } else {
                            assert(in_run(m, order, k, x));
                        }
                    }
                }
                if k + 1 < order.len() {
                    assert(node_ok(m, order, k + 1));
                }
                k = k + 1;
            }
            cur = nxt;
        }
        let mut errs: usize = 0;
        if all_free {
            let mut i: u32 = 1;
            proof {
                assert forall|x: int|
                    0 <= x < n implies (seen@[x] <==> covered(m, order, x)) by {
                    if seen@[x] {
                        let ii = choose|ii: int|
                            0 <= ii < order.len() && in_run(m, order, ii, x);
                        assert(covered(m, order, x));
                    }
                    if covered(m, order, x) {
                        let ii = choose|ii: int| in_run(m, order, ii, x);
                        assert(crate::layout::covered_prefix(m, order, order.len() as int, x));
                    }
                }
                assert(set_int_range(1, 1).difference(self.free_atoms()) =~= Set::empty());
                broadcast use vstd::set::axiom_set_empty_len;
            }
            while i < n
                invariant
                    m == self.mem_bytes(),
                    order == self.free_order(),
                    n as int == n_atoms(m),
                    seen@.len() == n,
                    1 <= i <= n,
                    errs <= i,
                    forall|x: int| 0 <= x < n ==> (seen@[x] <==> covered(m, order, x)),
                    (errs == 0 <==> (forall|x: int|
                        1 <= x < i ==> covered(m, order, x))),
                    errs as int == set_int_range(1, i as int).difference(
                        self.free_atoms(),
                    ).len(),
                decreases n - i,
            {
                proof {
                    let cov = self.free_atoms();
                    let d1 = set_int_range(1, i as int).difference(cov);
                    vstd::set_lib::lemma_int_range(1, i as int);
                    vstd::set::axiom_set_difference_finite(set_int_range(1, i as int), cov);
                    if seen@[i as int] {
                        assert(set_int_range(1, i as int + 1).difference(cov) =~= d1);
                    } else {
                        assert(set_int_range(1, i as int + 1).difference(cov) =~= d1.insert(
                            i as int,
                        ));
                        vstd::set::axiom_set_insert_len(d1, i as int);
                    }
                }
                if !seen[i as usize] {
                    errs = errs + 1;
                }
                i = i + 1;
            }
            proof {
                if errs == 0 {
                    assert forall|x: int|
                        1 <= x < self.atoms() implies self.free_atoms().contains(x) by {
                        assert(covered(m, order, x));
                    }
                } else {
                    let x = choose|x: int| 1 <= x < n && !covered(m, order, x);
                    assert(!self.free_atoms().contains(x));
                }
            }
        }
        errs
    }

    /// Decodes the region header.
    pub fn info(&self) -> (r: MmapInfo)
        requires
            self.mem_bytes().len() >= ATOM_SIZE,
            info_size(self.mem_bytes()) <= usize::MAX,
            info_max(self.mem_bytes()) <= usize::MAX,
        ensures
            r.magic as int == info_magic(self.mem_bytes()),
            r.vers_major as int == info_vmaj(self.mem_bytes()),
            r.vers_minor as int == info_vmin(self.mem_bytes()),
            r.size as int == info_size(self.mem_bytes()),
            r.max_size as int == info_max(self.mem_bytes()),
            r.num_headers as int == info_nhdr(self.mem_bytes()),
            r.free@ as int == info_free(self.mem_bytes()),
    {
        MmapInfo {
            magic: get_u16(&self.mem, MAGIC_OFF),
            vers_major: get_u8(&self.mem, VMAJ_OFF),
            vers_minor: get_u8(&self.mem, VMIN_OFF),
            size: get_u64(&self.mem, SIZE_OFF) as usize,
            max_size: get_u64(&self.mem, MAXSZ_OFF) as usize,
            num_headers: get_u32(&self.mem, NHDR_OFF),
            free: FreeAtom(get_u32(&self.mem, FREE_OFF)),
        }
    }

    /// Walks the optional secondary headers that follow the region header,
    /// returning each one's byte offset within atom 0, or nothing when a
    /// header would run past the reserved remainder of atom 0. The region
    /// header's count field says how many there are; minted regions have
    /// none.
    pub fn headers(&self) -> (r: Option<Vec<u32>>)
        requires
            self.wf(),
        ensures
            (r is Some <==> crate::layout::hdrs_ok(
                self.mem_bytes(),
                info_nhdr(self.mem_bytes()),
            )),
            r matches Some(v) ==> {
                &&& v@.len() == info_nhdr(self.mem_bytes())
                &&& forall|i: int|
                    0 <= i < v@.len() ==> v@[i] == crate::layout::hdr_off(self.mem_bytes(), i)
            },
    {
        let ghost m = self.mem_bytes();
        let mlen = self.mem.len();
        let nh = get_u32(&self.mem, NHDR_OFF);
        let mut v: Vec<u32> = Vec::new();
        let mut off: u64 = crate::layout::INFO_SIZE as u64;
        let mut i: u32 = 0;
        while i < nh
            invariant
                self.wf(),
                m == self.mem_bytes(),
                mlen == m.len(),
                nh as int == info_nhdr(m),
                0 <= i <= nh,
                off as int == crate::layout::hdr_off(m, i as int),
                v@.len() == i,
                forall|j: int| 0 <= j < i ==> v@[j] == crate::layout::hdr_off(m, j),
                forall|j: int|
                    0 <= j < i ==> #[trigger] crate::layout::hdr_off(m, j)
                        + crate::layout::HDR_FIXED_SIZE <= ATOM_SIZE,
            decreases nh - i,
        {
            if off > (ATOM_SIZE - crate::layout::HDR_FIXED_SIZE) as u64 {
                proof {
                    assert(crate::layout::hdr_off(m, i as int) + crate::layout::HDR_FIXED_SIZE
                        > ATOM_SIZE);
                }
                return None;
            }
            v.push(off as u32);
            let sz = get_u32(&self.mem, (off as usize) + crate::layout::HDR_LEN_OFF);
            let step = crate::rounding::round_up_u64(sz as u64, crate::layout::HDR_ALIGN as u64);
            off = off + step;
            i = i + 1;
        }
        proof {
            assert(crate::layout::hdrs_ok(m, info_nhdr(m)));
        }
        Some(v)
    }

    /// Reads the byte at offset `off` within atom `atom`: the safe form of
    /// taking a view into the region at an atom's address.
    pub fn read_byte(&self, atom: Atom, off: usize) -> (r: u8)
        requires
            self.wf(),
            1 <= atom@,
            (atom@ as int) < self.atoms(),
            off < ATOM_SIZE,
        ensures
            r == self.mem_bytes()[node_base(atom@ as int) + off],
    {
        proof {
            lemma_node_bytes_in_bounds(self.mem_bytes(), atom@ as int);
            lemma_atoms_exact(self.mem_bytes());
            assert((atom@ as int + 1) * (ATOM_SIZE as int) <= n_atoms(self.mem_bytes()) * (
            ATOM_SIZE as int)) by (nonlinear_arith)
                requires
                    atom@ as int + 1 <= n_atoms(self.mem_bytes()),
            ;
        }
        let _mlen = self.mem.len();
        let a = atom.atom();
        get_u8(&self.mem, (a as usize) * ATOM_SIZE + off)
    }

    /// Writes the byte at offset `off` within atom `atom`: the safe form of
    /// writing through a view into the region. The caller owns the atom: it
    /// must lie outside every free run and past the header atom, which
    /// keeps the allocator's bookkeeping intact.
    pub fn write_byte(&mut self, atom: Atom, off: usize, val: u8)
        requires
            old(self).wf(),
            old(self).writable(),
            1 <= atom@,
            (atom@ as int) < old(self).atoms(),
            off < ATOM_SIZE,
            !old(self).free_atoms().contains(atom@ as int),
        ensures
            final(self).wf(),
            final(self).writable() == old(self).writable(),
            final(self).is_file_backed() == old(self).is_file_backed(),
            final(self).spec_size() == old(self).spec_size(),
            final(self).spec_max_size() == old(self).spec_max_size(),
            final(self).atoms() == old(self).atoms(),
            final(self).free_runs() == old(self).free_runs(),
            final(self).free_atoms() == old(self).free_atoms(),
            final(self).mem_bytes() == old(self).mem_bytes().update(
                node_base(atom@ as int) + off,
                val,
            ),
    {
        let ghost m1 = self.mem@;
        let ghost order = self.free_order();
        proof {
            lemma_node_bytes_in_bounds(m1, atom@ as int);
            lemma_atoms_exact(m1);
            assert((atom@ as int + 1) * (ATOM_SIZE as int) <= n_atoms(m1) * (ATOM_SIZE as int))
                by (nonlinear_arith)
                requires
                    atom@ as int + 1 <= n_atoms(m1),
            ;
        }
        let _mlen = self.mem.len();
        let a = atom.atom();
        put_u8(&mut self.mem, (a as usize) * ATOM_SIZE + off, val);
        proof {
            let g = self.mem@;
            let lo = node_base(a as int) + off;
            crate::layout::lemma_header_frame(m1, g, lo, lo + 1);
            assert forall|i: int| 0 <= i < order.len() implies #[trigger] crate::layout::node_same(
                m1,
                g,
                order[i] as int,
            ) by {
                assert(node_ok(m1, order, i));
                lemma_node_bytes_in_bounds(m1, order[i] as int);
                assert(order[i] != a) by {
                    if order[i] == a {
                        assert(in_run(m1, order, i, a as int));
                        assert(covered(m1, order, a as int));
                    }
                }
                crate::layout::lemma_node_frame(m1, g, lo, lo + 1, order[i] as int);
            }
            crate::layout::lemma_list_frame(m1, g, order);
            assert(final(self).free_runs() =~= old(self).free_runs()) by {
                assert forall|j: int| 0 <= j < order.len() implies final(self).free_runs()[j]
                    == old(self).free_runs()[j] by {
                    assert(crate::layout::node_same(m1, g, order[j] as int));
                }
            }
            assert(final(self).free_atoms() =~= old(self).free_atoms());
            assert(g =~= m1.update(lo, val));
        }
    }

    /// Closes the region and hands back the backing bytes so a durable
    /// caller can write them out and sync; an anonymous caller drops them.
    pub fn close(self) -> (r: Vec<u8>)
        ensures
            r@ == self.mem_bytes(),
    {
        self.mem
    }
}

/// Conservation of atoms: serving an allocation takes exactly the
/// handed-out range out of the free coverage — after any extension first
/// added its fresh atoms — and freeing that range with the same size puts
/// it back, so the coverage returns to everything the region ever offered.
/// This is the shape of `chunk_alloc`'s and `chunk_free`'s postconditions:
/// with `cov` the coverage before the allocation, `ext` the atoms an
/// extension added, and `r` the handed-out range, nothing is lost and
/// nothing is counted twice.
pub proof fn lemma_alloc_free_round_trip(cov: Set<int>, ext: Set<int>, r: Set<int>)
    requires
        r.subset_of(cov.union(ext)),
    ensures
        cov.union(ext).difference(r).union(r) == cov.union(ext),
{
    assert(cov.union(ext).difference(r).union(r) =~= cov.union(ext));
}

/// Durability, first half: a healthy region's bytes always reopen. The
/// bytes `close` hands back pass every header check and hold a well-formed
/// free list, so `open` on them returns the region rather than an error.
pub proof fn lemma_close_reopen(m: Mmap)
    requires
        m.wf(),
    ensures
        image_valid(m.mem_bytes()),
{
    assert(list_wf(m.mem_bytes(), m.free_order()));
}

/// Durability, second half: the bytes alone determine the free list. Two
/// healthy regions over the same bytes list the same free runs and free
/// atoms, so reopening a closed region restores exactly the free list that
/// was closed.
pub proof fn lemma_runs_determined_by_bytes(m1: Mmap, m2: Mmap)
    requires
        m1.wf(),
        m2.wf(),
        m1.mem_bytes() == m2.mem_bytes(),
    ensures
        m1.free_runs() == m2.free_runs(),
        m1.free_atoms() == m2.free_atoms(),
{
    lemma_list_wf_unique(m1.mem_bytes(), m1.free_order(), m2.free_order());
    assert(m1.free_runs() =~= m2.free_runs());
    assert(m1.free_atoms() =~= m2.free_atoms());
}

/// A vector of `n` `false` flags, one per atom, for coverage marking.
fn unmarked(n: usize) -> (v: Vec<bool>)
    ensures
        v@.len() == n,
        forall|i: int| 0 <= i < n ==> !v@[i],
{
    let mut v: Vec<bool> = Vec::with_capacity(n);
    while v.len() < n
        invariant
            v@.len() <= n,
            forall|i: int| 0 <= i < v@.len() ==> !v@[i],
        decreases n - v@.len(),
    {
        v.push(false);
    }
    v
}

/// In a well-formed region header the atom count times the atom size gives
/// back the size field exactly.
proof fn lemma_atoms_exact(m: Seq<u8>)
    requires
        region_wf(m),
    ensures
        n_atoms(m) * (ATOM_SIZE as int) == info_size(m),
        1 <= n_atoms(m),
{
    vstd::arithmetic::div_mod::lemma_fundamental_div_mod(info_size(m), ATOM_SIZE as int);
}

/// A run's header bytes lie inside the region.
proof fn lemma_node_bytes_in_bounds(m: Seq<u8>, a: int)
    requires
        region_wf(m),
        1 <= a,
        a + 1 <= n_atoms(m),
    ensures
        node_base(a) + crate::layout::NODE_HEADER_SIZE <= info_size(m),
        node_base(a) + crate::layout::NODE_HEADER_SIZE <= m.len(),
{
    lemma_atoms_exact(m);
    assert((a + 1) * (ATOM_SIZE as int) <= n_atoms(m) * (ATOM_SIZE as int)) by (nonlinear_arith)
        requires
            a + 1 <= n_atoms(m),
    ;
}

/// Walks the free list of a region whose header has been accepted, checking
/// every node and building the list order. A corrupt list — a dangling or
/// cyclic link, a missing free magic, an out-of-bounds or overlapping run —
/// is rejected; bytes with any well-formed list are accepted.
#[verifier::rlimit(100)]
fn walk_free_list(mem: &Vec<u8>) -> (r: Result<Ghost<Seq<u32>>, Error>)
    requires
        region_wf(mem@),
    ensures
        r matches Ok(g) ==> list_wf(mem@, g@),
        image_valid(mem@) ==> r is Ok,
        r matches Err(e) ==> e matches Error::BadInfo { reason, .. } && reason
            == InfoReason::BadFreeList,
{
    proof {
        lemma_atoms_exact(mem@);
    }
    let mlen = mem.len();
    let size64 = get_u64(&mem, SIZE_OFF);
    let n = (size64 / (ATOM_SIZE as u64)) as u32;
    assert(n as int == n_atoms(mem@));
    let mut seen = unmarked(n as usize);
    let mut cur: u32 = get_u32(&mem, FREE_OFF);
    let ghost mut ord: Seq<u32> = Seq::empty();
    while cur != 0
        invariant
            region_wf(mem@),
            mlen == mem@.len(),
            n as int == n_atoms(mem@),
            n as int * (ATOM_SIZE as int) == info_size(mem@),
            seen@.len() == n,
            partial_chain(mem@, ord, cur as int),
            runs_disjoint(mem@, ord),
            ord.no_duplicates(),
            forall|x: int| 0 <= x < n ==> (seen@[x] <==> covered(mem@, ord, x)),
            ord.len() <= n,
        decreases n as int - ord.len() as int,
    {
        if cur >= n {
            proof {
                if image_valid(mem@) {
                    lemma_valid_cursor_node(mem@, ord, cur as int);
                }
            }
            return Err(Error::BadInfo { reason: InfoReason::BadFreeList, value: cur });
        }
        assert((cur as int) * (ATOM_SIZE as int) + ATOM_SIZE <= mlen) by {
            assert((cur as int + 1) * (ATOM_SIZE as int) <= n as int * (ATOM_SIZE as int))
                by (nonlinear_arith)
                requires
                    cur as int + 1 <= n as int,
            ;
        }
        let base = (cur as usize) * ATOM_SIZE;
        let magic = get_u32(&mem, base + NODE_MAGIC_OFF);
        if magic != FREE_MAGIC {
            proof {
                if image_valid(mem@) {
                    lemma_valid_cursor_node(mem@, ord, cur as int);
                }
            }
            return Err(Error::BadInfo { reason: InfoReason::BadFreeList, value: magic });
        }
        let size = get_u32(&mem, base + NODE_SIZE_OFF);
        if size == 0 || size > n - cur {
            proof {
                if image_valid(mem@) {
                    lemma_valid_cursor_node(mem@, ord, cur as int);
                }
            }
            return Err(Error::BadInfo { reason: InfoReason::BadFreeList, value: size });
        }
        let next = get_u32(&mem, base + NODE_NEXT_OFF);
        let cur_end = cur + size;
        let mut j = cur;
        while j < cur_end
            invariant
                region_wf(mem@),
                n as int == n_atoms(mem@),
                seen@.len() == n,
                partial_chain(mem@, ord, cur as int),
                runs_disjoint(mem@, ord),
                ord.no_duplicates(),
                ord.len() <= n,
                1 <= cur < n,
                cur <= j <= cur_end,
                cur_end == cur + size,
                size == node_size(mem@, cur as int),
                cur_end <= n,
                forall|x: int| cur <= x < j ==> !covered(mem@, ord, x),
                forall|x: int|
                    0 <= x < n ==> (seen@[x] <==> covered(mem@, ord, x) || (cur <= x < j)),
            decreases cur_end - j,
        {
            if seen[j as usize] {
                proof {
                    if image_valid(mem@) {
                        lemma_valid_cursor_node(mem@, ord, cur as int);
                    }
                }
                return Err(Error::BadInfo { reason: InfoReason::BadFreeList, value: j });
            }
            seen.set(j as usize, true);
            j = j + 1;
        }
        proof {
            lemma_extend_walk(mem@, ord, cur, next as int);
            let prev_ord = ord;
            ord = ord.push(cur);
            assert forall|x: int| 0 <= x < n implies (seen@[x] <==> covered(mem@, ord, x)) by {
                assert(covered(mem@, ord, x) <==> covered(mem@, prev_ord, x) || (cur <= x < cur
                    + node_size(mem@, cur as int)));
            }
        }
        cur = next;
    }
    proof {
        lemma_partial_chain_complete(mem@, ord);
    }
    Ok(Ghost(ord))
}

/// A vector of `n` zero bytes.
fn zeroed(n: usize) -> (v: Vec<u8>)
    ensures
        v@.len() == n,
        forall|i: int| 0 <= i < n ==> v@[i] == 0u8,
{
    let mut v: Vec<u8> = Vec::with_capacity(n);
    while v.len() < n
        invariant
            v@.len() <= n,
            forall|i: int| 0 <= i < v@.len() ==> v@[i] == 0u8,
        decreases n - v@.len(),
    {
        v.push(0u8);
    }
    v
}

/// Stamps a fresh region: header fields written, one free run spanning
/// every atom past the header.
#[verifier::rlimit(100)]
fn stamp_fresh(size: usize, max_size: usize, file_backed: bool, write: bool) -> (m: Mmap)
    requires
        size % ATOM_SIZE == 0,
        2 * ATOM_SIZE <= size,
        size as int / (ATOM_SIZE as int) <= u32::MAX,
        max_size == 0 || size <= max_size,
    ensures
        m.wf(),
        m.mem_bytes().len() == size,
        m.spec_size() == size,
        m.spec_max_size() == max_size,
        info_magic(m.mem_bytes()) == MAGIC_NUMBER,
        info_vmaj(m.mem_bytes()) == VERS_MAJOR,
        info_vmin(m.mem_bytes()) == VERS_MINOR,
        info_nhdr(m.mem_bytes()) == 0,
        info_free(m.mem_bytes()) == 1,
        m.atoms() == size as int / (ATOM_SIZE as int),
        m.free_order() == seq![1u32],
        m.free_runs() == seq![(1u32, (size / ATOM_SIZE - 1) as u32)],
        m.free_atoms() == set_int_range(1, m.atoms()),
        m.is_file_backed() == file_backed,
        m.writable() == write,
{
    let n_total = size / ATOM_SIZE;
    proof {
        vstd::arithmetic::div_mod::lemma_fundamental_div_mod(size as int, ATOM_SIZE as int);
    }
    let mut mem = zeroed(size);
    put_u16(&mut mem, MAGIC_OFF, MAGIC_NUMBER);
    let ghost g1 = mem@;
    put_u8(&mut mem, VMAJ_OFF, VERS_MAJOR);
    put_u8(&mut mem, VMIN_OFF, VERS_MINOR);
    put_u64(&mut mem, SIZE_OFF, size as u64);
    let ghost g4 = mem@;
    put_u64(&mut mem, MAXSZ_OFF, max_size as u64);
    let ghost g5 = mem@;
    put_u32(&mut mem, NHDR_OFF, 0);
    let ghost g6 = mem@;
    put_u32(&mut mem, FREE_OFF, 1);
    let ghost g7 = mem@;
    put_u32(&mut mem, ATOM_SIZE + NODE_MAGIC_OFF, FREE_MAGIC);
    let ghost g8 = mem@;
    put_u32(&mut mem, ATOM_SIZE + NODE_SIZE_OFF, (n_total - 1) as u32);
    let ghost g9 = mem@;
    put_u32(&mut mem, ATOM_SIZE + NODE_NEXT_OFF, 0);
    let ghost ord: Seq<u32> = seq![1u32];
    let m = Mmap { mem, file_backed, write, frees: Ghost(ord) };
    proof {
        let b = m.mem_bytes();
        assert(info_magic(b) == MAGIC_NUMBER) by {
            assert(forall|i: int| 0 <= i < 2 ==> b[i] == g1[i]);
            crate::codec::lemma_le16_same(g1, b, MAGIC_OFF as int);
        }
        assert(info_vmaj(b) == VERS_MAJOR);
        assert(info_vmin(b) == VERS_MINOR);
        assert(info_size(b) == size) by {
            assert(forall|i: int| 8 <= i < 16 ==> b[i] == g4[i]);
            crate::codec::lemma_le64_same(g4, b, SIZE_OFF as int);
        }
        assert(info_max(b) == max_size) by {
            assert(forall|i: int| 16 <= i < 24 ==> b[i] == g5[i]);
            crate::codec::lemma_le64_same(g5, b, MAXSZ_OFF as int);
        }
        assert(info_nhdr(b) == 0) by {
            assert(forall|i: int| 24 <= i < 28 ==> b[i] == g6[i]);
            crate::codec::lemma_le32_same(g6, b, NHDR_OFF as int);
        }
        assert(info_free(b) == 1) by {
            assert(forall|i: int| 28 <= i < 32 ==> b[i] == g7[i]);
            crate::codec::lemma_le32_same(g7, b, FREE_OFF as int);
        }
        assert(node_base(1) == ATOM_SIZE);
        assert(node_magic(b, 1) == FREE_MAGIC) by {
            assert(forall|i: int| 4096 <= i < 4100 ==> b[i] == g8[i]);
            crate::codec::lemma_le32_same(g8, b, node_base(1) + NODE_MAGIC_OFF);
        }
        assert(node_size(b, 1) == n_total - 1) by {
            assert(forall|i: int| 4100 <= i < 4104 ==> b[i] == g9[i]);
            crate::codec::lemma_le32_same(g9, b, node_base(1) + NODE_SIZE_OFF);
        }
        assert(node_next(b, 1) == 0);
        assert(n_atoms(b) == n_total);
        assert(region_wf(b));
        assert(node_ok(b, seq![1u32], 0));
        assert(list_wf(b, seq![1u32]));
        assert(m.free_runs() =~= seq![(1u32, (size / ATOM_SIZE - 1) as u32)]);
        assert(m.free_atoms() =~= set_int_range(1, m.atoms())) by {
            assert forall|x: int| covered(b, seq![1u32], x) <==> 1 <= x < n_total by {
                if 1 <= x < n_total {
                    assert(in_run(b, seq![1u32], 0, x));
                }
            }
        }
    }
    m
}

} // verus!
