//! Files that are no monolithic sparse extent, and an empty one in the
//! layout that `qemu-img` gives it.

use vmdk::device::Bytes;
use vmdk::header::{FLAG_REDUNDANT_GRAIN_TABLE, MAGIC};
use vmdk::{Error, VmdkReader};

/// The descriptor file of an 8 MiB disk.
fn descriptor_file(create_type: &str, extent: &str) -> Vec<u8> {
    format!(
        "# Disk DescriptorFile\n\
         version=1\n\
         CID=5b1ed7a0\n\
         parentCID=ffffffff\n\
         createType=\"{create_type}\"\n\
         \n\
         # Extent description\n\
         {extent}\n\
         \n\
         # The Disk Data Base\n\
         #DDB\n\
         \n\
         ddb.virtualHWVersion = \"4\"\n\
         ddb.geometry.cylinders = \"16\"\n\
         ddb.geometry.heads = \"16\"\n\
         ddb.geometry.sectors = \"63\"\n\
         ddb.adapterType = \"ide\"\n"
    )
    .into_bytes()
}

#[test]
fn a_flat_or_split_descriptor_names_its_create_type_rather_than_denying_it_is_a_vmdk() {
    for (subformat, extent) in [
        (
            "monolithicFlat",
            "RW 16384 FLAT \"monolithicFlat-flat.vmdk\" 0",
        ),
        (
            "twoGbMaxExtentSparse",
            "RW 16384 SPARSE \"twoGbMaxExtentSparse-s001.vmdk\"",
        ),
        (
            "twoGbMaxExtentFlat",
            "RW 16384 FLAT \"twoGbMaxExtentFlat-f001.vmdk\" 0",
        ),
    ] {
        match VmdkReader::open_on_device(Bytes(descriptor_file(subformat, extent))) {
            Err(Error::Unsupported(msg)) => assert!(
                msg.contains(subformat),
                "the refusal must name the create type; for {subformat} it said {msg:?}"
            ),
            Err(other) => panic!("{subformat}: expected Unsupported, got {other:?}"),
            Ok(_) => panic!("{subformat}: opened a layout this crate cannot read"),
        }
    }
}

#[test]
fn a_file_that_is_neither_a_sparse_extent_nor_a_descriptor_is_still_not_a_vmdk() {
    match VmdkReader::open_on_device(Bytes(vec![0x5Au8; 4096])) {
        Err(Error::NotVmdk) => {}
        Err(other) => panic!("expected NotVmdk, got {other:?}"),
        Ok(_) => panic!("expected NotVmdk, got Ok"),
    }
}

#[test]
fn our_reader_returns_zeros_and_geometry_for_empty_qemu_image() {
    // 4 MiB: one grain table in each directory, grains from sector 128 on.
    let mut f = vec![0u8; 128 * 512];
    let mut put = |at: usize, bytes: &[u8]| f[at..at + bytes.len()].copy_from_slice(bytes);
    put(0, &MAGIC.to_le_bytes());
    put(4, &1u32.to_le_bytes());
    put(8, &(FLAG_REDUNDANT_GRAIN_TABLE | 1).to_le_bytes());
    put(12, &8192u64.to_le_bytes());
    put(20, &128u64.to_le_bytes());
    put(28, &1u64.to_le_bytes());
    put(36, &20u64.to_le_bytes());
    put(44, &512u32.to_le_bytes());
    put(48, &21u64.to_le_bytes());
    put(56, &26u64.to_le_bytes());
    put(64, &128u64.to_le_bytes());
    put(73, b"\n \r\n");
    put(
        512,
        b"# Disk DescriptorFile\nversion=1\nCID=5b1ed7a0\nparentCID=ffffffff\n\
          createType=\"monolithicSparse\"\n\n# Extent description\n\
          RW 8192 SPARSE \"zeros.vmdk\"\n",
    );
    put(21 * 512, &22u32.to_le_bytes());
    put(26 * 512, &27u32.to_le_bytes());

    let mut r = VmdkReader::open_on_device(Bytes(f)).unwrap();
    assert_eq!(r.virtual_size(), 4 * 1024 * 1024);
    assert_eq!(r.grain_size_bytes(), 64 * 1024);
    assert!(r.header().has_redundant_grain_directory());

    let mut buf = vec![0xAAu8; 65_536];
    r.read_at(0, &mut buf).unwrap();
    assert!(buf.iter().all(|&b| b == 0), "empty VMDK must read zeros");
}
