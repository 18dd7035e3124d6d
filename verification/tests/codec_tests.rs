use lablog_store_csv::CSVStore;
use lablog_store_csv::Note;
use lablog_store_csv::ProjectName;
use lablog_store_csv::StoreError;
use lablog_store_csv::record::timestamp_is_valid;
use lablog_store_csv::store::project_from_bytes;

#[test]
fn timestamp_wire_form() {
    assert!(timestamp_is_valid("2017-03-05T14:30:00Z"));
    assert!(timestamp_is_valid("1999-12-31T23:59:59Z"));
    assert!(timestamp_is_valid("2017-01-01T00:00:00Z"));
    // wrong length
    assert!(!timestamp_is_valid("2017-03-05T14:30:00"));
    assert!(!timestamp_is_valid(""));
    // out-of-range fields
    assert!(!timestamp_is_valid("2017-13-05T14:30:00Z"));
    assert!(!timestamp_is_valid("2017-00-05T14:30:00Z"));
    assert!(!timestamp_is_valid("2017-03-32T14:30:00Z"));
    assert!(!timestamp_is_valid("2017-03-05T24:30:00Z"));
    assert!(!timestamp_is_valid("2017-03-05T14:60:00Z"));
    // wrong separators or digits
    assert!(!timestamp_is_valid("2017-03-05 14:30:00Z"));
    assert!(!timestamp_is_valid("2017-03-05T14:30:0xZ"));
    assert!(!timestamp_is_valid("2017-03-05T14:30:00X"));
}

#[test]
fn name_validation() {
    assert!(ProjectName::from_string("work.clientA".to_string()).is_ok());
    assert!(ProjectName::from_string("test".to_string()).is_ok());
    assert_eq!(
        ProjectName::from_string("".to_string()),
        Err(StoreError::PathEncodingError)
    );
    assert_eq!(
        ProjectName::from_string(".archive".to_string()),
        Err(StoreError::PathEncodingError)
    );
    assert_eq!(
        ProjectName::from_string("a..b".to_string()),
        Err(StoreError::PathEncodingError)
    );
    assert_eq!(
        ProjectName::from_string("a.b.".to_string()),
        Err(StoreError::PathEncodingError)
    );
    assert_eq!(
        ProjectName::from_string("a/b".to_string()),
        Err(StoreError::PathEncodingError)
    );
}

#[test]
fn paths_mirror_the_name() {
    let store = CSVStore::new("/var/lib/lablog".to_string());
    let name = ProjectName {
        name: "work.clientA.meetings".to_string(),
    };
    assert_eq!(
        store.project_path(&name),
        "/var/lib/lablog/work/clientA/meetings.csv"
    );
    assert_eq!(
        store.project_archive_path(&name),
        "/var/lib/lablog/.archive/work/clientA/meetings.csv"
    );
}

#[test]
fn foreign_path_is_rejected() {
    let store = CSVStore::new("/var/lib/lablog".to_string());
    assert_eq!(
        store.project_name_from_path(&"/etc/passwd".to_string()),
        Err(StoreError::PathEncodingError)
    );
    assert_eq!(
        store.project_name_from_path(&"/var/lib/lablog/test.txt".to_string()),
        Err(StoreError::PathEncodingError)
    );
    assert_eq!(
        store.project_name_from_path(&"/var/lib/lablog".to_string()),
        Err(StoreError::PathEncodingError)
    );
}

#[test]
fn record_codec_escapes_reserved_characters() {
    let mut store = CSVStore::new("data".to_string());
    let name = ProjectName {
        name: "tricky".to_string(),
    };
    let awkward = vec![
        "plain".to_string(),
        "a,comma".to_string(),
        "a \"quote\"".to_string(),
        "two\nlines".to_string(),
        "trailing space ".to_string(),
    ];
    for (i, value) in awkward.iter().enumerate() {
        let note = Note {
            time_stamp: format!("2017-03-05T14:30:{:02}Z", i),
            value: value.clone(),
        };
        store.write_note(&name, &note).expect("can not write note");
    }
    let project = store
        .get_project(name, false)
        .expect("can not read the project back");
    assert_eq!(project.notes.len(), awkward.len());
    for i in 0..project.notes.len() {
        let got = project.notes.get(i);
        assert!(awkward.contains(&got.value));
    }
}

#[test]
fn malformed_record_fails_decoding() {
    let name = ProjectName {
        name: "broken".to_string(),
    };
    // one field instead of two
    let bytes: Vec<u8> = b"2017-03-05T14:30:00Z\n".to_vec();
    assert_eq!(
        project_from_bytes(name.clone(), false, &bytes),
        Err(StoreError::DecodeError)
    );
    // an unparseable timestamp
    let bytes: Vec<u8> = b"yesterday,a\n".to_vec();
    assert_eq!(
        project_from_bytes(name.clone(), false, &bytes),
        Err(StoreError::DecodeError)
    );
    // the writer's own output decodes
    let bytes: Vec<u8> = b"2017-03-05T14:30:00Z,a\n".to_vec();
    let project = project_from_bytes(name, false, &bytes).expect("a plain record decodes");
    assert_eq!(project.notes.len(), 1);
    assert_eq!(project.notes.get(0).value, "a");
}

#[test]
fn error_descriptions_are_distinct() {
    let kinds = [
        StoreError::EmptyValue,
        StoreError::NotFound,
        StoreError::DecodeError,
        StoreError::TraversalError,
        StoreError::PathEncodingError,
    ];
    for a in 0..kinds.len() {
        for b in 0..kinds.len() {
            if a != b {
                assert_ne!(kinds[a].describe(), kinds[b].describe());
            }
        }
    }
}
