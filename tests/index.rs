use cotar::builder::{CotarIndex, MemberKind, TarMember};
use cotar::error::CotarError;
use cotar::layout::CotarIndexEntry;
use cotar::reader::Cotar;
use cotar::validate::{create_cotar, validate_members};

fn build_tar(files: &[(&str, &[u8])], links: &[(&str, &str)]) -> Vec<u8> {
    let mut b = tar::Builder::new(Vec::new());
    for (path, data) in files {
        let mut h = tar::Header::new_gnu();
        h.set_size(data.len() as u64);
        h.set_mode(0o644);
        b.append_data(&mut h, *path, *data).unwrap();
    }
    for (path, target) in links {
        let mut h = tar::Header::new_gnu();
        h.set_size(0);
        h.set_mode(0o644);
        h.set_entry_type(tar::EntryType::Link);
        b.append_link(&mut h, *path, *target).unwrap();
    }
    b.into_inner().unwrap()
}

fn scan(tar_bytes: &[u8]) -> Vec<TarMember> {
    let mut archive = tar::Archive::new(tar_bytes);
    let mut out = Vec::new();
    for entry in archive.entries().unwrap() {
        let entry = entry.unwrap();
        let kind = match entry.header().entry_type() {
            tar::EntryType::Regular => MemberKind::Regular,
            tar::EntryType::Link => MemberKind::HardLink,
            _ => MemberKind::Other,
        };
        let link_target = entry
            .link_name()
            .unwrap()
            .map(|p| p.to_str().unwrap().to_string());
        out.push(TarMember {
            path: entry.path().unwrap().to_str().unwrap().to_string(),
            kind,
            header_offset: entry.raw_header_position(),
            size: entry.header().size().unwrap(),
            link_target,
        });
    }
    out
}

fn embed(tar: &[u8], image: &[u8]) -> Vec<u8> {
    let mut v = tar.to_vec();
    v.extend_from_slice(image);
    v
}

fn slot(image: &[u8], i: usize) -> (u64, u32, u32) {
    let at = 8 + 16 * i;
    (
        u64::from_le_bytes(image[at..at + 8].try_into().unwrap()),
        u32::from_le_bytes(image[at + 8..at + 12].try_into().unwrap()),
        u32::from_le_bytes(image[at + 12..at + 16].try_into().unwrap()),
    )
}

fn index_of(tar: &[u8]) -> CotarIndex {
    CotarIndex::from_members(&scan(tar)).unwrap()
}

#[test]
fn minimal_single_file() {
    let tar = build_tar(&[("a", b"x")], &[]);
    let index = index_of(&tar);
    let packed = index.pack(1, 1).unwrap();
    assert_eq!(packed.slot_count, 1);
    assert_eq!(packed.entries, 1);
    // header (8) + one slot (16) + footer (8)
    assert_eq!(packed.vec.len(), 32);
    let reader = Cotar::from_tar(embed(&tar, &packed.vec)).unwrap();
    assert_eq!(reader.entries, 1);
    assert_eq!(
        reader.info("a"),
        Some(CotarIndexEntry { hash: Cotar::hash("a"), file_offset: 512, file_size: 1 })
    );
    assert_eq!(reader.info("b"), None);
    assert_eq!(reader.get("a").unwrap(), Some(b"x".to_vec()));
    assert_eq!(reader.get("b").unwrap(), None);
}

#[test]
fn colliding_home_slots() {
    // both fingerprints are even, so both have home slot 0 of 2
    assert_eq!(Cotar::hash("a") % 2, 0);
    assert_eq!(Cotar::hash("c") % 2, 0);
    let tar = build_tar(&[("a", b"first"), ("c", b"second")], &[]);
    let packed = index_of(&tar).pack(1, 1).unwrap();
    assert_eq!(packed.slot_count, 2);
    assert_eq!(packed.search_max, 1);
    assert_eq!(packed.search_total, 1);
    // sorted by offset within the home slot: "a" first, "c" pushed one slot on
    assert_eq!(slot(&packed.vec, 0), (Cotar::hash("a"), 1, 5));
    assert_eq!(slot(&packed.vec, 1), (Cotar::hash("c"), 3, 6));
    let reader = Cotar::from_tar_index(tar.clone(), packed.vec.clone()).unwrap();
    assert_eq!(reader.get("a").unwrap(), Some(b"first".to_vec()));
    assert_eq!(reader.get("c").unwrap(), Some(b"second".to_vec()));
    assert_eq!(reader.info("e"), None);
}

#[test]
fn auto_tune_keeps_probes_under_ceiling() {
    let names: Vec<String> = (0..1000u32)
        .map(|i| format!("tiles/{}/{}/{}.pbf", i % 7, (i * 7919) % 1013, i))
        .collect();
    let payloads: Vec<Vec<u8>> = (0..1000u32).map(|i| format!("payload-{}", i).into_bytes()).collect();
    let files: Vec<(&str, &[u8])> = names
        .iter()
        .zip(payloads.iter())
        .map(|(n, p)| (n.as_str(), p.as_slice()))
        .collect();
    let tar = build_tar(&files, &[]);
    let index = index_of(&tar);
    assert_eq!(index.len(), 1000);
    let packed = index.pack_auto(4).unwrap();
    assert!(packed.search_max <= 4);
    let n = packed.slot_count as u64;
    assert!(n >= 1000);
    for i in 0..packed.slot_count as usize {
        let (hash, _, _) = slot(&packed.vec, i);
        if hash != 0 {
            let home = hash % n;
            let distance = (i as u64 + n - home) % n;
            assert!(distance <= 4);
        }
    }
    let reader = Cotar::from_tar(embed(&tar, &packed.vec)).unwrap();
    for (name, payload) in names.iter().zip(payloads.iter()) {
        assert_eq!(reader.get(name).unwrap().as_ref(), Some(payload));
    }
}

#[test]
fn hard_link_shares_payload() {
    let tar = build_tar(&[("a", b"xx")], &[("b", "a")]);
    let members = scan(&tar);
    assert_eq!(members[1].kind, MemberKind::HardLink);
    assert_eq!(members[1].size, 0);
    let index = CotarIndex::from_members(&members).unwrap();
    let packed = index.pack(1, 1).unwrap();
    let reader = Cotar::from_tar(embed(&tar, &packed.vec)).unwrap();
    let a = reader.info("a").unwrap();
    let b = reader.info("b").unwrap();
    assert_eq!(a.file_offset, b.file_offset);
    assert_eq!(a.file_size, b.file_size);
    assert_eq!(b.file_size, 2);
    assert_eq!(reader.get("b").unwrap(), Some(b"xx".to_vec()));
}

#[test]
fn embedded_and_sidecar_agree() {
    let tar = build_tar(&[("a", b"1"), ("b", b"22"), ("c", b"333"), ("d", b"4444")], &[]);
    let packed = index_of(&tar).pack(3, 2).unwrap();
    let whole = embed(&tar, &packed.vec);
    assert_eq!(&whole[tar.len()..], packed.vec.as_slice());
    let embedded = Cotar::from_tar(whole.clone()).unwrap();
    let sidecar = Cotar::from_tar_index(tar.clone(), packed.vec.clone()).unwrap();
    assert_eq!(embedded.entries, sidecar.entries);
    assert_eq!(embedded.index_offset, tar.len() as u64);
    assert_eq!(sidecar.index_offset, 0);
    for p in ["a", "b", "c", "d", "e", "zz"] {
        assert_eq!(embedded.info(p), sidecar.info(p));
        assert_eq!(embedded.get(p).unwrap(), sidecar.get(p).unwrap());
    }
}

#[test]
fn corrupted_magic_or_truncation_is_refused() {
    let tar = build_tar(&[("a", b"x"), ("b", b"y")], &[]);
    let image = index_of(&tar).pack(1, 1).unwrap().vec;
    for i in 0..4 {
        let mut bad = image.clone();
        bad[i] ^= 0x5a;
        assert_eq!(
            Cotar::from_tar_index(tar.clone(), bad.clone()).unwrap_err(),
            CotarError::InvalidMagic
        );
        assert_eq!(Cotar::from_tar(embed(&tar, &bad)).unwrap_err(), CotarError::InvalidMagic);
    }
    let whole = embed(&tar, &image);
    assert!(Cotar::from_tar(whole[..whole.len() - 8].to_vec()).is_err());
    assert_eq!(
        Cotar::from_tar_index(tar.clone(), image[..image.len() - 8].to_vec()).unwrap_err(),
        CotarError::TruncatedIndex
    );
    assert_eq!(Cotar::from_tar(vec![1, 2, 3]).unwrap_err(), CotarError::TruncatedIndex);
}

#[test]
fn round_trip_finds_every_payload() {
    let names: Vec<String> = (0..64u32).map(|i| format!("dir{}/file{}.bin", i % 5, i)).collect();
    let payloads: Vec<Vec<u8>> = (0..64u32).map(|i| vec![i as u8; (i as usize * 37) % 1500]).collect();
    let files: Vec<(&str, &[u8])> = names
        .iter()
        .zip(payloads.iter())
        .map(|(n, p)| (n.as_str(), p.as_slice()))
        .collect();
    let tar = build_tar(&files, &[]);
    let packed = index_of(&tar).pack(5, 4).unwrap();
    assert_eq!(packed.slot_count, 80);
    let reader = Cotar::from_tar_index(tar, packed.vec).unwrap();
    for (name, payload) in names.iter().zip(payloads.iter()) {
        let entry = reader.info(name).unwrap();
        assert_eq!(entry.file_size as usize, payload.len());
        assert_eq!(entry.file_offset % 512, 0);
        assert_eq!(reader.get(name).unwrap().as_ref(), Some(payload));
    }
    for absent in ["dir0/file64.bin", "nothing", "dir1/file1.bi"] {
        assert_eq!(reader.info(absent), None);
        assert_eq!(reader.get(absent).unwrap(), None);
    }
}

#[test]
fn packing_twice_or_in_another_order_gives_same_bytes() {
    let mut forward = CotarIndex::new();
    let mut backward = CotarIndex::new();
    let paths: Vec<String> = (0..40u32).map(|i| format!("p{}", i)).collect();
    for (i, p) in paths.iter().enumerate() {
        forward.add(p, 512 * (i as u64 + 1), i as u32).unwrap();
    }
    for (i, p) in paths.iter().enumerate().rev() {
        backward.add(p, 512 * (i as u64 + 1), i as u32).unwrap();
    }
    let first = forward.pack(3, 2).unwrap();
    let second = forward.pack(3, 2).unwrap();
    assert_eq!(first.vec, second.vec);
    assert_eq!(first.search_max, second.search_max);
    assert_eq!(first.vec, backward.pack(3, 2).unwrap().vec);
}

#[test]
fn linked_paths_resolve_alike() {
    let mut index = CotarIndex::new();
    index.add("target", 1024, 17).unwrap();
    index.link("alias", "target").unwrap();
    assert_eq!(index.len(), 2);
    let packed = index.pack(1, 1).unwrap();
    let reader = Cotar::from_tar_index(vec![0; 2048], packed.vec).unwrap();
    let a = reader.info("alias").unwrap();
    let t = reader.info("target").unwrap();
    assert_eq!((a.file_offset, a.file_size), (t.file_offset, t.file_size));
    assert_eq!((a.file_offset, a.file_size), (1024, 17));
    assert_eq!(a.hash, Cotar::hash("alias"));
}

#[test]
fn packing_factor_boundaries() {
    let mut index = CotarIndex::new();
    for i in 0..3u64 {
        index.add(&format!("f{}", i), 512 * i, 1).unwrap();
    }
    let exact = index.pack(1, 1).unwrap();
    assert_eq!(exact.slot_count, 3);
    assert_eq!(exact.vec.len(), 16 + 16 * 3);
    assert_eq!(index.pack(3, 2).unwrap().slot_count, 5);
    assert_eq!(index.pack(2, 1).unwrap().slot_count, 6);
    assert_eq!(index.pack(99, 100).unwrap_err(), CotarError::InvalidPackingFactor);
    assert_eq!(index.pack(1, 0).unwrap_err(), CotarError::InvalidPackingFactor);
    assert_eq!(index.pack(u64::MAX, 1).unwrap_err(), CotarError::TooLarge);
    assert_eq!(index.pack(0x5555_5556, 1).unwrap_err(), CotarError::TooLarge);
}

#[test]
fn empty_index_packs_and_opens() {
    let index = CotarIndex::new();
    let packed = index.pack(1, 1).unwrap();
    assert_eq!(packed.slot_count, 0);
    assert_eq!(packed.vec.len(), 16);
    assert_eq!(packed.search_max, 0);
    let reader = Cotar::from_tar(packed.vec.clone()).unwrap();
    assert_eq!(reader.entries, 0);
    assert_eq!(reader.info("a"), None);
    assert_eq!(index.pack_auto(0).unwrap().vec, packed.vec);
}

#[test]
fn add_and_link_refusals() {
    let mut index = CotarIndex::new();
    index.add("a", 512, 1).unwrap();
    assert_eq!(index.add("a", 1024, 2).unwrap_err(), CotarError::DuplicateFingerprint);
    assert_eq!(index.add("b", 100, 2).unwrap_err(), CotarError::UnalignedOffset);
    assert_eq!(index.add("b", 512 << 32, 2).unwrap_err(), CotarError::EntryTooLarge);
    assert_eq!(index.link("b", "missing").unwrap_err(), CotarError::MissingLinkTarget);
    assert_eq!(index.link("a", "a").unwrap_err(), CotarError::DuplicateFingerprint);
    assert_eq!(index.len(), 1);
    index.add("b", (512 << 32) - 512, u32::MAX).unwrap();
    assert_eq!(index.len(), 2);
}

#[test]
fn members_of_each_kind() {
    let mut index = CotarIndex::new();
    let dir = TarMember {
        path: "dir/".to_string(),
        kind: MemberKind::Other,
        header_offset: 0,
        size: 0,
        link_target: None,
    };
    index.add_member(&dir).unwrap();
    assert_eq!(index.len(), 0);
    let broken = TarMember {
        path: "l".to_string(),
        kind: MemberKind::HardLink,
        header_offset: 512,
        size: 0,
        link_target: None,
    };
    assert_eq!(index.add_member(&broken).unwrap_err(), CotarError::MissingLinkTarget);
    let huge = TarMember {
        path: "big".to_string(),
        kind: MemberKind::Regular,
        header_offset: 512,
        size: 1 << 32,
        link_target: None,
    };
    assert_eq!(index.add_member(&huge).unwrap_err(), CotarError::EntryTooLarge);
    let file = TarMember {
        path: "f".to_string(),
        kind: MemberKind::Regular,
        header_offset: 1024,
        size: 9,
        link_target: None,
    };
    index.add_member(&file).unwrap();
    let packed = index.pack(1, 1).unwrap();
    assert_eq!(slot(&packed.vec, 0), (Cotar::hash("f"), 3, 9));
}

#[test]
fn validation_checks_regular_members() {
    let tar = build_tar(&[("a", b"x"), ("b", b"yy")], &[("c", "a")]);
    let members = scan(&tar);
    let packed = CotarIndex::from_members(&members).unwrap().pack(1, 1).unwrap();
    let reader = create_cotar(tar.clone(), Some(packed.vec.clone())).unwrap();
    assert_eq!(validate_members(&reader, &members).unwrap(), 3);
    let embedded = create_cotar(embed(&tar, &packed.vec), None).unwrap();
    assert_eq!(validate_members(&embedded, &members).unwrap(), 3);

    let mut wrong_size = members.clone();
    wrong_size[1].size = 3;
    assert_eq!(validate_members(&reader, &wrong_size).unwrap_err(), CotarError::EntryMismatch);
    let mut unknown = members.clone();
    unknown[0].path = "zzz".to_string();
    assert_eq!(validate_members(&reader, &unknown).unwrap_err(), CotarError::MissingEntry);
}

#[test]
fn reading_past_the_tar_fails() {
    let mut index = CotarIndex::new();
    index.add("far", 4096, 100).unwrap();
    let packed = index.pack(1, 1).unwrap();
    let reader = Cotar::from_tar_index(vec![0; 4100], packed.vec).unwrap();
    assert_eq!(reader.get("far").unwrap_err(), CotarError::UnexpectedEof);
    assert_eq!(reader.info("far").unwrap().file_size, 100);
}

#[test]
fn footer_must_repeat_header() {
    let mut index = CotarIndex::new();
    index.add("a", 512, 1).unwrap();
    let mut image = index.pack(2, 1).unwrap().vec;
    let n = image.len();
    image[n - 4] = 7;
    assert_eq!(
        Cotar::from_tar_index(Vec::new(), image.clone()).unwrap_err(),
        CotarError::TruncatedIndex
    );
    image[n - 4] = 2;
    image[4] = 7;
    assert_eq!(Cotar::from_tar(image).unwrap_err(), CotarError::TruncatedIndex);
}
