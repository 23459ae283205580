use vector_engine::snapshot_archive::{check_entry_types, EntryKind};
use vector_engine::types::OperationError;

fn archive(entries: &[(&str, tar::EntryType, &[u8])]) -> Vec<u8> {
    let mut builder = tar::Builder::new(Vec::new());
    for (name, kind, data) in entries {
        let mut header = tar::Header::new_gnu();
        header.set_entry_type(*kind);
        header.set_size(data.len() as u64);
        header.set_mode(0o644);
        if *kind == tar::EntryType::Symlink {
            header.set_link_name("elsewhere").unwrap();
        }
        builder.append_data(&mut header, name, *data).unwrap();
    }
    builder.into_inner().unwrap()
}

/// Reads the type flags of the entries as a program around the library
/// does, and lets the library judge them.
fn validate_snapshot_archive(bytes: &[u8]) -> Result<(), OperationError> {
    let mut reader = tar::Archive::new(std::io::Cursor::new(bytes));
    let entries = match reader.entries_with_seek() {
        Ok(entries) => entries,
        Err(_) => {
            return Err(OperationError::ServiceError {
                description: "failed to open segment snapshot archive".to_string(),
            })
        }
    };
    let flags: Vec<Option<u8>> =
        entries.map(|entry| entry.ok().map(|e| e.header().entry_type().as_byte())).collect();
    check_entry_types(&flags)
}

#[test]
fn archive_of_files_and_directories_is_accepted() {
    let bytes = archive(&[
        ("segment/", tar::EntryType::Directory, b""),
        ("segment/config.json", tar::EntryType::Regular, b"{}"),
        ("segment/vectors/chunk_0", tar::EntryType::Regular, &[7u8; 1500]),
    ]);
    assert_eq!(validate_snapshot_archive(&bytes), Ok(()));
    assert_eq!(validate_snapshot_archive(&archive(&[])), Ok(()));
    assert_eq!(validate_snapshot_archive(&[]), Ok(()));
}

#[test]
fn archive_with_a_link_is_refused() {
    let bytes = archive(&[
        ("segment/config.json", tar::EntryType::Regular, b"{}"),
        ("segment/secret", tar::EntryType::Symlink, b""),
        ("segment/more", tar::EntryType::Regular, b"x"),
    ]);
    assert_eq!(
        validate_snapshot_archive(&bytes),
        Err(OperationError::ValidationError {
            description: "Malformed snapshot, tar archive contains Symlink entry".to_string()
        })
    );
    let bytes = archive(&[("pipe", tar::EntryType::Fifo, b"")]);
    assert_eq!(
        validate_snapshot_archive(&bytes),
        Err(OperationError::ValidationError {
            description: "Malformed snapshot, tar archive contains Fifo entry".to_string()
        })
    );
}

#[test]
fn archive_that_cannot_be_read_is_refused() {
    let mut bytes = archive(&[("a", tar::EntryType::Regular, b"abc")]);
    bytes[0] ^= 0xff;
    assert_eq!(
        validate_snapshot_archive(&bytes),
        Err(OperationError::ServiceError {
            description: "Failed to open snapshot archive, malformed format".to_string()
        })
    );
    let garbage = vec![0x5au8; 2048];
    assert!(matches!(
        validate_snapshot_archive(&garbage),
        Err(OperationError::ServiceError { .. })
    ));
}

#[test]
fn first_offending_entry_decides() {
    assert_eq!(check_entry_types(&vec![]), Ok(()));
    assert_eq!(check_entry_types(&vec![Some(b'0'), Some(0), Some(b'5')]), Ok(()));
    assert_eq!(
        check_entry_types(&vec![Some(b'0'), Some(b'1'), None]),
        Err(OperationError::ValidationError {
            description: "Malformed snapshot, tar archive contains Link entry".to_string()
        })
    );
    assert_eq!(
        check_entry_types(&vec![Some(b'5'), None, Some(b'2')]),
        Err(OperationError::ServiceError {
            description: "Failed to open snapshot archive, malformed format".to_string()
        })
    );
    assert_eq!(
        check_entry_types(&vec![Some(b'?')]),
        Err(OperationError::ValidationError {
            description: "Malformed snapshot, tar archive contains unknown entry".to_string()
        })
    );
}

#[test]
fn entry_kinds_follow_the_type_flags() {
    let flags: [(u8, EntryKind); 14] = [
        (0, EntryKind::Regular),
        (b'0', EntryKind::Regular),
        (b'1', EntryKind::Link),
        (b'2', EntryKind::Symlink),
        (b'3', EntryKind::Char),
        (b'4', EntryKind::Block),
        (b'5', EntryKind::Directory),
        (b'6', EntryKind::Fifo),
        (b'7', EntryKind::Continuous),
        (b'x', EntryKind::XHeader),
        (b'g', EntryKind::XGlobalHeader),
        (b'L', EntryKind::GNULongName),
        (b'K', EntryKind::GNULongLink),
        (b'S', EntryKind::GNUSparse),
    ];
    for (flag, kind) in flags {
        assert_eq!(EntryKind::from_byte(flag), kind);
        assert_eq!(tar::EntryType::new(flag), tar::EntryType::new(tar::EntryType::new(flag).as_byte()));
        assert_eq!(kind.is_allowed(), flag == 0 || flag == b'0' || flag == b'5');
    }
    assert_eq!(EntryKind::from_byte(b'Z'), EntryKind::Other(b'Z'));
    assert_eq!(EntryKind::GNULongName.name(), "GNULongName");
    assert_eq!(EntryKind::Other(1).name(), "unknown");
}
