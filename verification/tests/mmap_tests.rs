use leghorn::layout::{ATOM_SHIFT, ATOM_SIZE, DEFAULT_SIZE, MAGIC_NUMBER, VERS_MAJOR, VERS_MINOR};
use leghorn::mmap::{
    atom_to_addr, num_atoms_needed, Address, Atom, Error, InfoReason, Mmap, MmapBuilder,
};

fn mint(size: usize) -> Mmap {
    MmapBuilder::new()
        .path("test.mem".to_string())
        .write(true)
        .mint(true)
        .size(size)
        .open(None)
        .unwrap()
}

#[test]
fn simple_open() {
    let mut m = MmapBuilder::new()
        .path("test.mem".to_string())
        .write(true)
        .size(100 * 1024)
        .open(None)
        .unwrap();

    m.dump();
    for _ in 0..10 {
        let _m1 = test_alloc(&mut m, 30_000);
        let m2 = test_alloc(&mut m, 60_000);
        let _m3 = test_alloc(&mut m, 90_000);

        m.dump();

        if let Some(x) = m2 {
            m.chunk_free(x, 60_000);
        }

        m.dump();
    }
}

fn test_alloc(m: &mut Mmap, size: usize) -> Option<Atom> {
    m.chunk_alloc(size)
}

#[test]
fn mint_one_alloc_splits_the_run() {
    let mut m = mint(100 * 1024);
    assert_eq!(m.dump(), vec![(1, 24)]);
    let a = m.chunk_alloc(30_000).unwrap();
    assert_eq!(a.atom(), 17);
    assert_eq!(m.dump(), vec![(1, 16)]);
}

#[test]
fn three_allocs_trigger_extension() {
    let mut m = mint(100 * 1024);
    let a1 = m.chunk_alloc(30_000).unwrap();
    let a2 = m.chunk_alloc(60_000).unwrap();
    let a3 = m.chunk_alloc(90_000).unwrap();
    assert_eq!(a1.atom(), 17);
    assert_eq!(a2.atom(), 2);
    // The third request found no fit, so the region grew; the new atoms
    // come from past the old end of the file.
    assert_eq!(a3.atom(), 67);
    let info = m.info();
    assert_eq!(info.size, 102_400 + 64 * ATOM_SIZE);
    let n = info.size / ATOM_SIZE;
    for a in [a1, a2, a3] {
        assert!(1 <= a.atom() && (a.atom() as usize) < n);
    }
    assert_ne!(a1.atom(), a2.atom());
    assert_ne!(a1.atom(), a3.atom());
    assert_ne!(a2.atom(), a3.atom());
    assert_eq!(m.dump(), vec![(25, 42), (1, 1)]);
}

#[test]
fn free_inserts_by_size() {
    let mut m = mint(100 * 1024);
    let _a1 = m.chunk_alloc(30_000).unwrap();
    let a2 = m.chunk_alloc(60_000).unwrap();
    let _a3 = m.chunk_alloc(90_000).unwrap();
    m.chunk_free(a2, 60_000);
    // The freed 15-atom run goes in front of the first run no larger than
    // it: between the 42-atom remainder and the single leftover atom.
    assert_eq!(m.dump(), vec![(25, 42), (2, 15), (1, 1)]);
    assert_eq!(m.chunk_check(false), 0);
}

#[test]
fn looped_allocs_conserve_atoms() {
    let mut m = mint(100 * 1024);
    let mut held: Vec<(Atom, usize)> = Vec::new();
    for _ in 0..10 {
        let a1 = m.chunk_alloc(30_000).unwrap();
        held.push((a1, 30_000));
        let a2 = m.chunk_alloc(60_000).unwrap();
        let a3 = m.chunk_alloc(90_000).unwrap();
        held.push((a3, 90_000));
        m.chunk_free(a2, 60_000);
        assert_eq!(m.chunk_check(false), 0);
    }
    for (a, size) in held {
        m.chunk_free(a, size);
    }
    assert_eq!(m.chunk_check(true), 0);
}

#[test]
fn max_size_refuses_extension() {
    let mut m = MmapBuilder::new()
        .path("test.mem".to_string())
        .write(true)
        .mint(true)
        .size(100 * 1024)
        .max_size(100 * 1024)
        .open(None)
        .unwrap();
    let before = m.dump();
    // 49 atoms cannot be served by the 24-atom run, and the ceiling equals
    // the current size, so the extension is refused.
    assert!(m.chunk_alloc(200_000).is_none());
    assert_eq!(m.dump(), before);
    assert_eq!(m.info().max_size, 100 * 1024);
}

#[test]
fn close_and_reopen_preserves_header_and_free_list() {
    let m = MmapBuilder::new()
        .path("test.mem".to_string())
        .write(true)
        .mint(true)
        .size(128 * 1024)
        .open(None)
        .unwrap();
    let runs = m.dump();
    let bytes = m.close();
    let m2 = MmapBuilder::new()
        .path("test.mem".to_string())
        .write(false)
        .open(Some(bytes))
        .unwrap();
    let info = m2.info();
    assert_eq!(info.magic, MAGIC_NUMBER);
    assert_eq!(info.vers_major, VERS_MAJOR);
    assert_eq!(info.vers_minor, VERS_MINOR);
    assert_eq!(info.size, 128 * 1024);
    assert_eq!(info.max_size, 0);
    assert_eq!(info.num_headers, 0);
    assert_eq!(info.free.atom(), 1);
    assert_eq!(m2.dump(), runs);
    assert_eq!(m2.dump(), vec![(1, 31)]);
}

#[test]
fn reopen_after_allocs_frees_correctly() {
    let mut m = mint(100 * 1024);
    let a1 = m.chunk_alloc(10_000).unwrap();
    let a2 = m.chunk_alloc(20_000).unwrap();
    let bytes = m.close();
    let mut m2 = MmapBuilder::new()
        .path("test.mem".to_string())
        .write(true)
        .open(Some(bytes))
        .unwrap();
    m2.chunk_free(a1, 10_000);
    m2.chunk_free(a2, 20_000);
    assert_eq!(m2.chunk_check(true), 0);
}

#[test]
fn endianness_is_detected() {
    let m = mint(100 * 1024);
    let mut bytes = m.close();
    // The magic is stored little-endian as 1E BE; swapped bytes read as the
    // opposite-endian value.
    assert_eq!(bytes[0], 0x1E);
    assert_eq!(bytes[1], 0xBE);
    bytes[0] = 0xBE;
    bytes[1] = 0x1E;
    let r = MmapBuilder::new().write(false).path("test.mem".to_string()).open(Some(bytes));
    match r {
        Err(e @ Error::BadInfo { reason, value }) => {
            assert_eq!(reason, InfoReason::EndianMagic);
            assert_eq!(value, 0x1EBE);
            assert_eq!(e.message(), "magic has endian issues");
        }
        _ => panic!("expected an endianness rejection"),
    }
}

#[test]
fn wrong_magic_is_detected() {
    let m = mint(100 * 1024);
    let mut bytes = m.close();
    bytes[0] = 0x00;
    bytes[1] = 0x00;
    let r = MmapBuilder::new().write(false).path("test.mem".to_string()).open(Some(bytes));
    match r {
        Err(e @ Error::BadInfo { reason, value }) => {
            assert_eq!(reason, InfoReason::WrongMagic);
            assert_eq!(value, 0);
            assert_eq!(e.message(), "magic has wrong value");
        }
        _ => panic!("expected a magic rejection"),
    }
}

#[test]
fn version_gate() {
    // A newer minor version is rejected.
    let m = mint(100 * 1024);
    let mut bytes = m.close();
    bytes[3] = VERS_MINOR + 1;
    let r = MmapBuilder::new().write(false).path("test.mem".to_string()).open(Some(bytes));
    match r {
        Err(e @ Error::BadInfo { reason, value }) => {
            assert_eq!(reason, InfoReason::MinorVersionTooNew);
            assert_eq!(value, (VERS_MINOR + 1) as u32);
            assert_eq!(e.message(), "minor version number is too new");
        }
        _ => panic!("expected a minor-version rejection"),
    }
    // A different major version is rejected.
    let m = mint(100 * 1024);
    let mut bytes = m.close();
    bytes[2] = VERS_MAJOR + 1;
    let r = MmapBuilder::new().write(false).path("test.mem".to_string()).open(Some(bytes));
    match r {
        Err(Error::BadInfo { reason, .. }) => {
            assert_eq!(reason, InfoReason::WrongMajorVersion);
        }
        _ => panic!("expected a major-version rejection"),
    }
    // The same versions reopen.
    let m = mint(100 * 1024);
    let bytes = m.close();
    assert!(MmapBuilder::new().write(false).path("test.mem".to_string()).open(Some(bytes)).is_ok());
}

#[test]
fn corrupt_size_field_is_rejected() {
    let m = mint(100 * 1024);
    let mut bytes = m.close();
    // A size that is not a whole number of atoms.
    bytes[8] = 1;
    let r = MmapBuilder::new().write(false).path("test.mem".to_string()).open(Some(bytes));
    match r {
        Err(Error::BadInfo { reason, .. }) => assert_eq!(reason, InfoReason::BadSizeField),
        _ => panic!("expected a size rejection"),
    }
}

#[test]
fn corrupt_free_list_is_rejected() {
    // A free run without its magic.
    let m = mint(100 * 1024);
    let mut bytes = m.close();
    bytes[ATOM_SIZE] = 0;
    let r = MmapBuilder::new().write(false).path("test.mem".to_string()).open(Some(bytes));
    match r {
        Err(Error::BadInfo { reason, .. }) => assert_eq!(reason, InfoReason::BadFreeList),
        _ => panic!("expected a free-list rejection"),
    }
    // A cyclic free list: the first run linking back to itself.
    let m = mint(100 * 1024);
    let mut bytes = m.close();
    bytes[ATOM_SIZE + 8] = 1;
    let r = MmapBuilder::new().write(false).path("test.mem".to_string()).open(Some(bytes));
    match r {
        Err(Error::BadInfo { reason, .. }) => assert_eq!(reason, InfoReason::BadFreeList),
        _ => panic!("expected a cycle rejection"),
    }
}

#[test]
fn anonymous_region_cannot_extend() {
    let mut m = MmapBuilder::new().mint(true).size(100 * 1024).open(None).unwrap();
    // Fits inside the region: served.
    assert!(m.chunk_alloc(30_000).is_some());
    // Needs an extension: anonymous regions cannot grow.
    assert!(m.chunk_alloc(200_000).is_none());
}

#[test]
fn zero_sized_request_is_refused() {
    let mut m = mint(100 * 1024);
    let before = m.dump();
    assert!(m.chunk_alloc(0).is_none());
    assert_eq!(m.dump(), before);
}

#[test]
fn oversized_request_is_refused() {
    let mut m = mint(100 * 1024);
    let before = m.dump();
    // More atoms than an atom index can ever name.
    assert!(m.chunk_alloc(usize::MAX).is_none());
    assert_eq!(m.dump(), before);
}

#[test]
fn chunk_data_survives_other_traffic() {
    let mut m = mint(100 * 1024);
    let a = m.chunk_alloc(16).unwrap();
    for i in 0..16 {
        m.write_byte(a, i, 0x45);
    }
    let b = m.chunk_alloc(60_000).unwrap();
    m.chunk_free(b, 60_000);
    for i in 0..16 {
        assert_eq!(m.read_byte(a, i), 0x45);
    }
}

#[test]
fn minted_region_has_no_secondary_headers() {
    let m = mint(100 * 1024);
    assert_eq!(m.info().num_headers, 0);
    assert_eq!(m.headers(), Some(vec![]));
}

#[test]
fn builder_defaults() {
    let m = MmapBuilder::new().mint(true).open(None).unwrap();
    assert_eq!(m.info().size, DEFAULT_SIZE);
    assert_eq!(m.info().max_size, 0);
    assert_eq!(m.dump(), vec![(1, 31)]);
}

#[test]
fn atom_arithmetic() {
    assert_eq!(num_atoms_needed(0, ATOM_SHIFT).count(), 0);
    assert_eq!(num_atoms_needed(1, ATOM_SHIFT).count(), 1);
    assert_eq!(num_atoms_needed(4096, ATOM_SHIFT).count(), 1);
    assert_eq!(num_atoms_needed(4097, ATOM_SHIFT).count(), 2);
    assert_eq!(num_atoms_needed(30_000, ATOM_SHIFT).count(), 8);
    assert_eq!(num_atoms_needed(90_000, ATOM_SHIFT).count(), 22);
    assert_eq!(
        atom_to_addr(Address(0x2000_0000_0000), 2, ATOM_SHIFT),
        0x2000_0000_2000
    );
    let null = Atom::make_null();
    assert!(null.is_null());
    assert_eq!(null.atom(), 0);
}
