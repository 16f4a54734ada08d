use bson::{Bson, Document};
use proddle::module::ModuleMessage;
use proddle::{build_module, Module};

fn full_document() -> Document {
    let mut document = Document::new();
    document.insert("timestamp", Bson::Int64(1_500_000_000));
    document.insert("name", Bson::String("dns/lookup".to_string()));
    document.insert("version", Bson::Int32(3));
    document.insert(
        "dependencies",
        Bson::Array(vec![Bson::String("dnspython".to_string()), Bson::Int32(7)]),
    );
    document.insert("content", Bson::String("print('hi')".to_string()));
    document
}

fn complaint(document: &Document) -> String {
    match Module::from_mongodb(document) {
        Ok(_) => panic!("the document should not be read"),
        Err(complaint) => complaint,
    }
}

#[test]
fn new_keeps_its_parts() {
    let module = Module::new(
        Some(5),
        "probe".to_string(),
        2,
        Some(vec!["a".to_string()]),
        Some("body".to_string()),
    );
    assert_eq!(module.timestamp, Some(5));
    assert_eq!(module.name, "probe");
    assert_eq!(module.version, 2);
    assert_eq!(module.dependencies, Some(vec!["a".to_string()]));
    assert_eq!(module.content, Some("body".to_string()));
    let bare = Module::new(None, String::new(), 0, None, None);
    assert_eq!(bare.timestamp, None);
    assert_eq!(bare.dependencies, None);
    assert_eq!(bare.content, None);
}

#[test]
fn from_mongodb_reads_a_full_document() {
    let module = Module::from_mongodb(&full_document()).ok().unwrap();
    assert_eq!(module.timestamp, Some(1_500_000_000));
    assert_eq!(module.name, "dns/lookup");
    assert_eq!(module.version, 3);
    assert_eq!(
        module.dependencies,
        Some(vec!["\"dnspython\"".to_string(), "7".to_string()])
    );
    assert_eq!(module.content, Some("print('hi')".to_string()));
}

#[test]
fn from_mongodb_takes_no_notice_of_other_fields() {
    let mut document = full_document();
    document.insert("_id", Bson::Int32(1));
    document.insert("comment", Bson::Null);
    assert!(Module::from_mongodb(&document).is_ok());
}

#[test]
fn from_mongodb_complains_of_the_timestamp_first() {
    let empty = Document::new();
    assert_eq!(complaint(&empty), "failed to parse timestamp as i64");
    let mut document = full_document();
    document.insert("timestamp", Bson::Int32(5));
    assert_eq!(complaint(&document), "failed to parse timestamp as i64");
    document.remove("name");
    assert_eq!(complaint(&document), "failed to parse timestamp as i64");
}

#[test]
fn from_mongodb_complains_of_the_name() {
    let mut document = full_document();
    document.remove("name");
    assert_eq!(complaint(&document), "failed to parse name as string");
    document.insert("name", Bson::Int64(1));
    document.remove("version");
    assert_eq!(complaint(&document), "failed to parse name as string");
}

#[test]
fn from_mongodb_complains_of_the_version() {
    let mut document = full_document();
    document.insert("version", Bson::Int64(3));
    assert_eq!(complaint(&document), "failed to parse version as i32");
    document.remove("version");
    assert_eq!(complaint(&document), "failed to parse version as i32");
}

#[test]
fn from_mongodb_complains_of_the_dependencies() {
    let mut document = full_document();
    document.insert("dependencies", Bson::String("dnspython".to_string()));
    assert_eq!(complaint(&document), "failed to parse dependencies as array");
    document.remove("dependencies");
    document.remove("content");
    assert_eq!(complaint(&document), "failed to parse dependencies as array");
}

#[test]
fn from_mongodb_complains_of_the_content() {
    let mut document = full_document();
    document.insert("content", Bson::Null);
    assert_eq!(complaint(&document), "failed to parse content as string");
    document.remove("content");
    assert_eq!(complaint(&document), "failed to parse content as string");
}

#[test]
fn from_mongodb_cuts_numbers_to_their_fields() {
    let mut document = full_document();
    document.insert("timestamp", Bson::Int64(-1));
    document.insert("version", Bson::Int32(65537));
    let module = Module::from_mongodb(&document).ok().unwrap();
    assert_eq!(module.timestamp, Some(u64::MAX));
    assert_eq!(module.version, 1);
    document.insert("version", Bson::Int32(-1));
    assert_eq!(Module::from_mongodb(&document).ok().unwrap().version, 65535);
}

#[test]
fn from_mongodb_reads_an_empty_list_of_dependencies() {
    let mut document = full_document();
    document.insert("dependencies", Bson::Array(vec![]));
    let module = Module::from_mongodb(&document).ok().unwrap();
    assert_eq!(module.dependencies, Some(vec![]));
}

#[test]
fn fresh_message_has_no_field_set() {
    let message = ModuleMessage::new();
    assert_eq!(message.timestamp, 0);
    assert_eq!(message.name, "");
    assert_eq!(message.version, 0);
    assert!(message.dependencies.is_empty());
    assert_eq!(message.content, "");
}

#[test]
fn build_module_writes_what_is_given() {
    let mut message = ModuleMessage::new();
    let built = build_module(&mut message, Some(77), "probe", 4, Some(vec!["dep"]), Some("body"));
    assert_eq!(built, Ok(()));
    assert_eq!(message.timestamp, 77);
    assert_eq!(message.name, "probe");
    assert_eq!(message.version, 4);
    assert_eq!(message.content, "body");
    assert!(message.dependencies.is_empty());
}

#[test]
fn build_module_leaves_alone_what_is_not_given() {
    let mut message = ModuleMessage::new();
    message.timestamp = 5;
    message.content = "old".to_string();
    message.dependencies = vec!["kept".to_string()];
    message.name = "old name".to_string();
    message.version = 9;
    let built = build_module(&mut message, None, "probe", 1, None, None);
    assert_eq!(built, Ok(()));
    assert_eq!(message.timestamp, 5);
    assert_eq!(message.content, "old");
    assert_eq!(message.dependencies, vec!["kept".to_string()]);
    assert_eq!(message.name, "probe");
    assert_eq!(message.version, 1);
}
