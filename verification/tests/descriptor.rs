use vmdk::descriptor::Descriptor;
use vmdk::error::Error;


#[test]
fn parses_monolithic_sparse() {
    let text = "# Disk DescriptorFile\n\
                version=1\n\
                CID=fffffffe\n\
                parentCID=ffffffff\n\
                createType=\"monolithicSparse\"\n\
                \n\
                RW 2048 SPARSE \"test.vmdk\"\n\
                \n\
                ddb.geometry.cylinders = \"2\"\n";
    let d = Descriptor::parse(text).unwrap();
    assert_eq!(d.create_type, "monolithicSparse");
    assert_eq!(d.extents.len(), 1);
    assert_eq!(d.extents[0].sectors, 2048);
    assert_eq!(d.extents[0].kind, "SPARSE");
    assert_eq!(d.extents[0].filename, "test.vmdk");
}

#[test]
fn rejects_flat() {
    let text = "createType=\"monolithicFlat\"\nRW 2048 FLAT \"x.vmdk\" 0\n";
    assert!(matches!(
        Descriptor::parse(text),
        Err(Error::Unsupported("monolithicFlat"))
    ));
}

#[test]
fn missing_create_type_is_corrupt() {
    let text = "version=1\nRW 2048 SPARSE \"x.vmdk\"\n";
    assert!(matches!(Descriptor::parse(text), Err(Error::Corrupt(_))));
}

#[test]
fn rejects_every_known_unsupported_variant_with_stable_message() {
    for (ct, msg) in [
        ("monolithicFlat", "monolithicFlat"),
        ("twoGbMaxExtentSparse", "twoGbMaxExtentSparse"),
        ("twoGbMaxExtentFlat", "twoGbMaxExtentFlat"),
        ("vmfs", "vmfs"),
        ("vmfsSparse", "vmfsSparse"),
        ("streamOptimized", "streamOptimized"),
        ("fullDevice", "fullDevice"),
        ("partitionedDevice", "partitionedDevice"),
    ] {
        let text = format!("createType=\"{ct}\"\n");
        match Descriptor::parse(&text) {
            Err(Error::Unsupported(got)) => assert_eq!(got, msg, "for {ct}"),
            other => panic!("expected Unsupported({msg}) for {ct}, got {other:?}"),
        }
    }
}

#[test]
fn unknown_create_type_maps_to_stable_message() {
    let text = "createType=\"someFutureType\"\n";
    match Descriptor::parse(text) {
        Err(Error::Unsupported(msg)) => assert_eq!(msg, "unknown createType"),
        other => panic!("expected Unsupported, got {other:?}"),
    }
}

#[test]
fn tolerates_nul_padding_and_comment_lines() {
    // Descriptor sector is NUL-padded on disk; comments and blank
    // lines must be skipped.
    let mut text = String::from(
        "# Disk DescriptorFile\n\
         createType=\"monolithicSparse\"\n\
         \n\
         RW 2048 SPARSE \"x.vmdk\"\n",
    );
    text.push_str("\0\0\0\0\0\0");
    let d = Descriptor::parse(&text).unwrap();
    assert_eq!(d.create_type, "monolithicSparse");
    assert_eq!(d.extents.len(), 1);
}

#[test]
fn parses_readonly_and_noaccess_extent_access_modes() {
    let text = "createType=\"monolithicSparse\"\n\
                RDONLY 2048 SPARSE \"a.vmdk\"\n\
                NOACCESS 1024 SPARSE \"b.vmdk\"\n";
    let d = Descriptor::parse(text).unwrap();
    assert_eq!(d.extents.len(), 2);
    assert_eq!(d.extents[0].access, "RDONLY");
    assert_eq!(d.extents[1].access, "NOACCESS");
}

#[test]
fn ignores_malformed_extent_line_with_non_numeric_sectors() {
    // "RW xyz SPARSE ..." has a non-numeric sector count; parse_extent
    // returns None and the line is silently ignored, leaving zero
    // extents (but a valid createType).
    let text = "createType=\"monolithicSparse\"\nRW xyz SPARSE \"x.vmdk\"\n";
    let d = Descriptor::parse(text).unwrap();
    assert_eq!(d.create_type, "monolithicSparse");
    assert!(d.extents.is_empty());
}

#[test]
fn accepts_create_type_without_quotes() {
    let d = Descriptor::parse("createType=monolithicSparse\n").unwrap();
    assert_eq!(d.create_type, "monolithicSparse");
}

#[test]
fn refuses_delta_disk_named_by_parent_file_name_hint() {
    // A VMware snapshot delta is `monolithicSparse` too — the only
    // thing that distinguishes it is the parent linkage. Opening it as
    // a standalone disk reads every unowned grain as zeros, so it must
    // be refused rather than half-read.
    let text = "# Disk DescriptorFile\n\
                version=1\n\
                CID=fffffffe\n\
                parentCID=fffffffd\n\
                createType=\"monolithicSparse\"\n\
                parentFileNameHint=\"base.vmdk\"\n\
                \n\
                RW 2048 SPARSE \"base-000001.vmdk\"\n";
    match Descriptor::parse(text) {
        Err(Error::Unsupported(msg)) => {
            assert!(
                msg.contains("parent"),
                "message must name the parent: {msg}"
            )
        }
        other => panic!("expected Unsupported for a delta disk, got {other:?}"),
    }
}

#[test]
fn refuses_delta_disk_identified_only_by_parent_cid() {
    // Some producers omit the hint but still record a child CID.
    let text = "createType=\"monolithicSparse\"\n\
                parentCID=1a2b3c4d\n\
                RW 2048 SPARSE \"child.vmdk\"\n";
    match Descriptor::parse(text) {
        Err(Error::Unsupported(msg)) => {
            assert!(
                msg.contains("parent"),
                "message must name the parent: {msg}"
            )
        }
        other => panic!("expected Unsupported for a child CID, got {other:?}"),
    }
}

#[test]
fn standalone_disk_with_sentinel_parent_cid_still_parses() {
    // `ffffffff` is the "no parent" sentinel every standalone VMware
    // disk carries, in either spelling; refusing it would break every
    // ordinary image.
    for cid in ["ffffffff", "FFFFFFFF", "0xffffffff"] {
        let text = format!(
            "createType=\"monolithicSparse\"\nparentCID={cid}\nRW 2048 SPARSE \"x.vmdk\"\n"
        );
        let d = Descriptor::parse(&text)
            .unwrap_or_else(|e| panic!("parentCID={cid} must parse, got {e:?}"));
        assert_eq!(d.extents.len(), 1);
    }
}

#[test]
fn empty_parent_file_name_hint_is_not_a_parent() {
    let text = "createType=\"monolithicSparse\"\n\
                parentFileNameHint=\"\"\n\
                RW 2048 SPARSE \"x.vmdk\"\n";
    let d = Descriptor::parse(text).unwrap();
    assert_eq!(d.extents.len(), 1);
}
