use lablog_store_csv::CSVStore;
use lablog_store_csv::Note;
use lablog_store_csv::Notes;
use lablog_store_csv::Project;
use lablog_store_csv::ProjectName;
use lablog_store_csv::Projects;
use lablog_store_csv::sorted::insert_sorted;

fn stamp(i: usize) -> String {
    format!("2017-03-05T14:30:{:02}Z", i % 60)
}

#[test]
fn write_read_notes() {
    let mut teststore = CSVStore::new("lablog_store_csv_test_write_read_note".to_string());
    let testname = ProjectName {
        name: "test".to_string(),
    };

    let mut notes = Notes::new();

    for i in 0..100 {
        let note = Note {
            time_stamp: stamp(i),
            value: "test".to_string() + &i.to_string(),
        };

        teststore
            .write_note(&testname, &note)
            .expect("can not write note to store");

        notes.insert(note);
    }

    let testproject = Project {
        archived: false,
        name: testname.clone(),
        notes: notes,
    };

    let storeproject = teststore
        .get_project(testname, false)
        .expect("can not get note from store");

    println!("storeproject: {:#?}", storeproject);

    if testproject.notes.len() != storeproject.notes.len() {
        panic!(
            "storenotes length ({}) is different from notes length ({})",
            testproject.notes.len(),
            storeproject.notes.len()
        )
    }

    assert_eq!(testproject, storeproject);
}

#[test]
#[should_panic]
fn write_empty_note() {
    let mut teststore = CSVStore::new("lablog_store_csv_test_write_read_note".to_string());
    let testproject = ProjectName {
        name: "test".to_string(),
    };

    let note = Note {
        time_stamp: stamp(0),
        value: "".to_string(),
    };

    teststore
        .write_note(&testproject, &note)
        .expect("can not write note to store");
}

#[test]
fn get_projects_list() {
    let mut teststore = CSVStore::new("lablog_store_csv_test_write_read_note".to_string());

    let note = Note {
        time_stamp: stamp(0),
        value: "test".to_string(),
    };

    let mut list: Vec<ProjectName> = Vec::new();

    for i in 1..100 {
        let testproject = ProjectName {
            name: format!("test{}", i),
        };

        teststore
            .write_note(&testproject, &note)
            .expect("can not write note to store");

        insert_sorted(&mut list, testproject);
    }

    let storelist = teststore
        .get_projects_list()
        .expect("can not get project list from store");

    println!("storelist: {:#?}", storelist);

    if list.len() != storelist.len() {
        panic!(
            "storelist length ({}) is not list length ({})",
            storelist.len(),
            list.len()
        )
    }

    assert_eq!(list, storelist);
}

#[test]
fn project_name_from_path() {
    let teststore = CSVStore::new("lablog_store_csv_test_write_read_note".to_string());
    {
        let expected = ProjectName {
            name: "test".to_string(),
        };
        let path = teststore.project_path(&expected);

        let got = teststore
            .project_name_from_path(&path)
            .expect("can not get project name from path");

        assert_eq!(expected, got);
    }

    {
        let expected = ProjectName {
            name: "test.test".to_string(),
        };
        let path = teststore.project_path(&expected);

        let got = teststore
            .project_name_from_path(&path)
            .expect("can not get project name from path");

        assert_eq!(expected, got);
    }

    {
        let expected = ProjectName {
            name: "test.test.test".to_string(),
        };
        let path = teststore.project_path(&expected);

        let got = teststore
            .project_name_from_path(&path)
            .expect("can not get project name from path");

        assert_eq!(expected, got);
    }
}

#[test]
fn get_projects() {
    let mut teststore = CSVStore::new("lablog_store_csv_test_get_projects".to_string());

    let note = Note {
        time_stamp: stamp(0),
        value: "test".to_string(),
    };

    let mut notes = Notes::new();
    notes.insert(note.clone());

    let mut testprojects = Projects::new();

    for i in 1..100 {
        let testproject = ProjectName {
            name: format!("test{}", i),
        };

        teststore
            .write_note(&testproject, &note)
            .expect("can not write note to store");

        testprojects.insert(Project {
            name: testproject,
            notes: notes.clone(),
            archived: false,
        });
    }

    let storeprojects = teststore
        .get_projects()
        .expect("can not get projects from store");

    println!("storeprojects: {:#?}", storeprojects);

    if testprojects.len() != storeprojects.len() {
        panic!(
            "storeprojects length ({}) is not testprojects length ({})",
            storeprojects.len(),
            testprojects.len()
        )
    }

    assert_eq!(testprojects, storeprojects);
}

#[test]
fn archive_project() {
    let mut teststore = CSVStore::new("lablog_store_csv_test_get_projects".to_string());
    let testname = ProjectName {
        name: "test".to_string(),
    };

    let note = Note {
        time_stamp: stamp(0),
        value: "test".to_string(),
    };

    teststore
        .write_note(&testname, &note)
        .expect("can not write note to store");

    let mut notes = Notes::new();
    notes.insert(note);

    teststore
        .archive_project(&testname)
        .expect("can not archive project");

    let testproject = Project {
        archived: true,
        name: testname.clone(),
        notes: notes,
    };

    let storeproject = teststore
        .get_project(testname, true)
        .expect("can not get project from store");

    assert_eq!(testproject, storeproject);
}

#[test]
fn archive_project_merging() {
    let mut teststore = CSVStore::new("lablog_store_csv_test_get_projects".to_string());
    let testname = ProjectName {
        name: "test".to_string(),
    };

    let note = Note {
        time_stamp: stamp(0),
        value: "test".to_string(),
    };

    let note2 = Note {
        time_stamp: stamp(1),
        value: "test2".to_string(),
    };

    teststore
        .write_note(&testname, &note)
        .expect("can not write note to store");

    teststore
        .archive_project(&testname)
        .expect("can not archive project");

    teststore
        .write_note(&testname, &note2)
        .expect("can not write note to store");

    teststore
        .archive_project(&testname)
        .expect("can not archive project");

    let mut notes = Notes::new();
    notes.insert(note);
    notes.insert(note2);

    let testproject = Project {
        archived: true,
        name: testname.clone(),
        notes: notes,
    };

    let storeproject = teststore
        .get_project(testname, true)
        .expect("can not get project from store");

    assert_eq!(testproject, storeproject);
}

#[test]
fn archive_leaves_no_active_file() {
    let mut store = CSVStore::new("data".to_string());
    let name = ProjectName {
        name: "work.client".to_string(),
    };
    let note = Note {
        time_stamp: stamp(7),
        value: "met the client".to_string(),
    };
    store.write_note(&name, &note).expect("can not write note");
    store.archive_project(&name).expect("can not archive");

    let active = store.get_project(name.clone(), false);
    assert_eq!(active, Err(lablog_store_csv::StoreError::NotFound));

    let archived = store
        .get_project(name, true)
        .expect("can not read the archive");
    assert_eq!(archived.notes.len(), 1);
    assert_eq!(archived.notes.get(0), &note);
    assert!(archived.archived);
}

#[test]
fn archive_merge_removes_active_file() {
    let mut store = CSVStore::new("data".to_string());
    let name = ProjectName {
        name: "test".to_string(),
    };
    let first = Note {
        time_stamp: stamp(0),
        value: "a".to_string(),
    };
    let second = Note {
        time_stamp: stamp(1),
        value: "b".to_string(),
    };
    store.write_note(&name, &first).expect("can not write note");
    store.archive_project(&name).expect("can not archive");
    store.write_note(&name, &second).expect("can not write note");
    store.archive_project(&name).expect("can not archive");

    let active = store.get_project(name.clone(), false);
    assert_eq!(active, Err(lablog_store_csv::StoreError::NotFound));

    let archived = store
        .get_project(name, true)
        .expect("can not read the archive");
    assert_eq!(archived.notes.len(), 2);
    assert_eq!(archived.notes.get(0), &first);
    assert_eq!(archived.notes.get(1), &second);
}

#[test]
fn archive_missing_project_not_found() {
    let mut store = CSVStore::new("data".to_string());
    let name = ProjectName {
        name: "nothing".to_string(),
    };
    assert_eq!(
        store.archive_project(&name),
        Err(lablog_store_csv::StoreError::NotFound)
    );
}

#[test]
fn empty_value_performs_no_write() {
    let mut store = CSVStore::new("data".to_string());
    let name = ProjectName {
        name: "test".to_string(),
    };
    let note = Note {
        time_stamp: stamp(0),
        value: "".to_string(),
    };
    assert_eq!(
        store.write_note(&name, &note),
        Err(lablog_store_csv::StoreError::EmptyValue)
    );
    // no file may have been created by the rejected write
    assert_eq!(
        store.get_project(name, false),
        Err(lablog_store_csv::StoreError::NotFound)
    );
    let list = store.get_projects_list().expect("can not list");
    assert_eq!(list.len(), 0);
}

#[test]
fn listing_is_idempotent() {
    let mut store = CSVStore::new("data".to_string());
    let note = Note {
        time_stamp: stamp(3),
        value: "x".to_string(),
    };
    for i in 0..10 {
        let name = ProjectName {
            name: format!("p{}", i),
        };
        store.write_note(&name, &note).expect("can not write note");
    }
    let first = store.get_projects_list().expect("can not list");
    let second = store.get_projects_list().expect("can not list");
    assert_eq!(first, second);
    assert_eq!(first.len(), 10);
}

#[test]
fn listing_skips_archived_projects() {
    let mut store = CSVStore::new("data".to_string());
    let note = Note {
        time_stamp: stamp(4),
        value: "x".to_string(),
    };
    let keep = ProjectName {
        name: "keep".to_string(),
    };
    let gone = ProjectName {
        name: "gone".to_string(),
    };
    store.write_note(&keep, &note).expect("can not write note");
    store.write_note(&gone, &note).expect("can not write note");
    store.archive_project(&gone).expect("can not archive");
    let list = store.get_projects_list().expect("can not list");
    assert_eq!(list.len(), 1);
    assert_eq!(list[0].name, "keep");
}
