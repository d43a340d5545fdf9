use gpm::configure::{new, Configure};
use gpm::errors::{ConfigError, StoreError};
use gpm::paths::get_absolute_path;
use path_absolutize::Absolutize;

fn empty_config() -> Configure {
    new(".gpmrc".to_string(), "{\"root\":[]}").unwrap()
}

#[test]
fn empty_document_loads_an_empty_store() {
    let rc = empty_config();

    assert_eq!(rc.file_path.as_str(), ".gpmrc");
    assert_eq!(rc.root, Vec::<String>::new());
    assert_eq!(rc.to_json().as_str(), "{\"root\":[]}");
}

#[test]
fn loading_keeps_the_roots_in_order() {
    let rc = new("c".to_string(), "{\"root\":[\"/a\",\"/b\"]}").unwrap();

    assert_eq!(rc.root, vec!["/a".to_string(), "/b".to_string()]);
}

#[test]
fn whitespace_between_tokens_is_accepted() {
    let rc = new("c".to_string(), " {\n\t\"root\" :\r [ \"/a\" ,\n \"/b\" ] } ").unwrap();

    assert_eq!(rc.root, vec!["/a".to_string(), "/b".to_string()]);
}

#[test]
fn escapes_are_decoded() {
    let rc = new("c".to_string(), "{\"root\":[\"a\\\\b\",\"x\\ny\",\"q\\u0001\",\"s\\/t\"]}")
        .unwrap();

    assert_eq!(
        rc.root,
        vec![
            "a\\b".to_string(),
            "x\ny".to_string(),
            "q\u{1}".to_string(),
            "s/t".to_string(),
        ]
    );
}

#[test]
fn malformed_documents_are_rejected() {
    for text in [
        "",
        "{}",
        "{\"root\":[]",
        "{\"other\":[]}",
        "{\"root\":[1]}",
        "{\"root\":[\"/a\"]} x",
        "{\"root\":[\"/a\",]}",
        "{\"root\":[\"bad\u{1}control\"]}",
        "{\"root\":[\"broken",
        "not json at all",
    ] {
        assert_eq!(
            new("c".to_string(), text).unwrap_err(),
            ConfigError::Malformed,
            "accepted: {}",
            text
        );
    }
}

#[test]
fn unknown_field_is_refused() {
    let mut rc = empty_config();

    let r1 = rc.add_field("field", &"value".to_string(), true);

    assert_eq!(r1.unwrap_err(), StoreError::UnknownField);
    assert_eq!(rc.root, Vec::<String>::new());
}

#[test]
fn value_that_is_not_a_directory_is_refused() {
    let mut rc = empty_config();

    let r = rc.add_field("root", &"/home/u/notes.txt".to_string(), false);

    assert_eq!(r.unwrap_err(), StoreError::NotADirectory);
    assert_eq!(rc.root, Vec::<String>::new());
}

#[test]
fn adding_a_root_appends_and_persists_exactly() {
    let mut rc = empty_config();
    // `./src` against the working directory `/home/u/proj`, normalized as
    // the surrounding program would normalize it before registering it
    let joined = gpm::paths::get_absolute_path("./src", "/home/u/proj");
    let target_dir = std::path::Path::new(&joined)
        .absolutize()
        .unwrap()
        .to_str()
        .unwrap()
        .to_string();
    assert_eq!(target_dir.as_str(), "/home/u/proj/src");

    rc.add_field("root", &target_dir, true).unwrap();

    assert_eq!(rc.root, vec![target_dir.clone()]);
    assert_eq!(
        rc.to_json(),
        format!("{{\"root\":[\"{}\"]}}", target_dir)
    );

    rc.reset().unwrap();

    assert_eq!(rc.to_json().as_str(), "{\"root\":[]}");
}

#[test]
fn adding_the_same_root_twice_keeps_one_occurrence() {
    let mut rc = empty_config();
    let v = "/home/u/gpm".to_string();

    rc.add_field("root", &v, true).unwrap();
    rc.add_field("root", &v, true).unwrap();

    assert_eq!(rc.root, vec![v.clone()]);
    assert_eq!(rc.root.iter().filter(|r| **r == v).count(), 1);
}

#[test]
fn adding_a_second_root_keeps_insertion_order() {
    let mut rc = empty_config();

    rc.add_field("root", &"/a".to_string(), true).unwrap();
    rc.add_field("root", &"/b".to_string(), true).unwrap();
    rc.add_field("root", &"/a".to_string(), true).unwrap();

    assert_eq!(rc.root, vec!["/a".to_string(), "/b".to_string()]);
}

#[test]
fn set_field_replaces_the_whole_list() {
    let mut rc = new("c".to_string(), "{\"root\":[\"/a\",\"/b\"]}").unwrap();

    rc.set_field("root", &"/only".to_string(), true).unwrap();

    assert_eq!(rc.root, vec!["/only".to_string()]);

    let r = rc.set_field("field", &"/x".to_string(), true);

    assert_eq!(r.unwrap_err(), StoreError::UnknownField);
    assert_eq!(rc.root, vec!["/only".to_string()]);
}

#[test]
fn remove_field_clears_the_list() {
    let mut rc = new("c".to_string(), "{\"root\":[\"/a\",\"/b\"]}").unwrap();

    rc.remove_field("root").unwrap();

    assert_eq!(rc.root, Vec::<String>::new());

    let r = rc.remove_field("field");

    assert_eq!(r.unwrap_err(), StoreError::UnknownField);
}

#[test]
fn written_documents_read_back_unchanged() {
    let mut rc = empty_config();
    for v in ["/plain", "c:\\win\\style", "with \"quote\"", "line\nbreak", "ctl\u{3}"] {
        rc.add_field("root", &v.to_string(), true).unwrap();
    }

    let written = rc.to_json();
    let reread = new("c".to_string(), written.as_str()).unwrap();

    assert_eq!(reread.root, rc.root);
}

#[test]
fn backslashes_are_escaped_in_the_document() {
    let mut rc = empty_config();
    let target_dir = "c:\\u\\proj".to_string();

    rc.add_field("root", &target_dir, true).unwrap();

    assert_eq!(
        rc.to_json(),
        format!("{{\"root\":[\"{}\"]}}", target_dir.replace('\\', "\\\\"))
    );
}

#[test]
fn written_documents_are_valid_json() {
    let mut rc = empty_config();
    for v in ["/plain", "back\\slash", "qu\"ote", "tab\there", "bell\u{7}"] {
        rc.add_field("root", &v.to_string(), true).unwrap();
    }

    let value: serde_json::Value = serde_json::from_str(rc.to_json().as_str()).unwrap();
    let roots: Vec<String> = value["root"]
        .as_array()
        .unwrap()
        .iter()
        .map(|v| v.as_str().unwrap().to_string())
        .collect();

    assert_eq!(roots, rc.root);
}

#[test]
fn absolute_paths_pass_through_normalization() {
    assert_eq!(get_absolute_path("/home/u/gpm", "/w").as_str(), "/home/u/gpm");
}

#[test]
fn relative_paths_are_joined_onto_the_working_directory() {
    assert_eq!(get_absolute_path("src", "/home/u/proj").as_str(), "/home/u/proj/src");
    assert_eq!(get_absolute_path("a/b", "/w/").as_str(), "/w/a/b");
}
