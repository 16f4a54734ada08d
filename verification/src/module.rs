//! Measurement scripts as the catalog describes them.

use crate::document::{document_fields, document_get, Field, FieldView};
use crate::operation::texts;
use vstd::prelude::*;

verus! {

/// A measurement script of the catalog. The version 0 says that the script
/// was deleted.
pub struct Module {
    pub timestamp: Option<u64>,
    pub name: String,
    pub version: u16,
    pub dependencies: Option<Vec<String>>,
    pub content: Option<String>,
}

/// The mathematical value of a `Module`.
pub struct ModuleView {
    pub timestamp: Option<u64>,
    pub name: Seq<char>,
    pub version: u16,
    pub dependencies: Option<Seq<Seq<char>>>,
    pub content: Option<Seq<char>>,
}

impl View for Module {
    type V = ModuleView;

    open spec fn view(&self) -> ModuleView {
        ModuleView {
            timestamp: self.timestamp,
            name: self.name@,
            version: self.version,
            dependencies: match self.dependencies {
                Some(dependencies) => Some(texts(dependencies@)),
                None => None,
            },
            content: match self.content {
                Some(content) => Some(content@),
                None => None,
            },
        }
    }
}

/// What a document holds under `key`, if anything.
pub open spec fn field_at(fields: Map<Seq<char>, FieldView>, key: Seq<char>) -> Option<FieldView> {
    if fields.contains_key(key) {
        Some(fields[key])
    } else {
        None
    }
}

/// The module that a document with these fields describes, or the complaint
/// about the first field that is missing or of another type. The fields are
/// looked at in the order timestamp, name, version, dependencies, content.
/// The timestamp and the version are cut to the width of their fields.
pub open spec fn parsed_module(fields: Map<Seq<char>, FieldView>) -> Result<ModuleView, Seq<char>> {
    match field_at(fields, "timestamp"@) {
        Some(FieldView::Int64(timestamp)) => match field_at(fields, "name"@) {
            Some(FieldView::Text(name)) => match field_at(fields, "version"@) {
                Some(FieldView::Int32(version)) => match field_at(fields, "dependencies"@) {
                    Some(FieldView::List(dependencies)) => match field_at(fields, "content"@) {
                        Some(FieldView::Text(content)) => Ok(
                            ModuleView {
                                timestamp: Some(timestamp as u64),
                                name,
                                version: version as u16,
                                dependencies: Some(dependencies),
                                content: Some(content),
                            },
                        ),
                        _ => Err("failed to parse content as string"@),
                    },
                    _ => Err("failed to parse dependencies as array"@),
                },
                _ => Err("failed to parse version as i32"@),
            },
            _ => Err("failed to parse name as string"@),
        },
        _ => Err("failed to parse timestamp as i64"@),
    }
}

/// The mathematical value of the result of reading a module.
pub open spec fn read_view(read: Result<Module, String>) -> Result<ModuleView, Seq<char>> {
    match read {
        Ok(module) => Ok(module@),
        Err(complaint) => Err(complaint@),
    }
}

impl Module {
    /// Puts a module together from its parts.
    pub fn new(
        timestamp: Option<u64>,
        name: String,
        version: u16,
        dependencies: Option<Vec<String>>,
        content: Option<String>,
    ) -> (module: Module)
        ensures
            module.timestamp == timestamp,
            module.name == name,
            module.version == version,
            module.dependencies == dependencies,
            module.content == content,
    {
        Module { timestamp, name, version, dependencies, content }
    }

    /// Reads a module from a document of the catalog's store.
    pub fn from_mongodb(document: &bson::Document) -> (read: Result<Module, String>)
        ensures
            read_view(read) == parsed_module(document_fields(*document)),
    {
        let timestamp = match document_get(document, "timestamp") {
            Some(Field::Int64(timestamp)) => Some(#[verifier::truncate] (timestamp as u64)),
            _ => return Err("failed to parse timestamp as i64".to_owned()),
        };
        let name = match document_get(document, "name") {
            Some(Field::Text(name)) => name,
            _ => return Err("failed to parse name as string".to_owned()),
        };
        let version = match document_get(document, "version") {
            Some(Field::Int32(version)) => #[verifier::truncate] (version as u16),
            _ => return Err("failed to parse version as i32".to_owned()),
        };
        let dependencies = match document_get(document, "dependencies") {
            Some(Field::List(dependencies)) => Some(dependencies),
            _ => return Err("failed to parse dependencies as array".to_owned()),
        };
        let content = match document_get(document, "content") {
            Some(Field::Text(content)) => Some(content),
            _ => return Err("failed to parse content as string".to_owned()),
        };
        Ok(Module { timestamp, name, version, dependencies, content })
    }
}

/// The fields of a module on its way to or from the coordinator. A field
/// that was never set has the value that the wire gives it: 0, the empty
/// text, the empty list.
pub struct ModuleMessage {
    pub timestamp: u64,
    pub name: String,
    pub version: u16,
    pub dependencies: Vec<String>,
    pub content: String,
}

impl ModuleMessage {
    /// A message none of whose fields is set.
    pub fn new() -> (message: ModuleMessage)
        ensures
            message.timestamp == 0,
            message.name@ == Seq::<char>::empty(),
            message.version == 0,
            message.dependencies@ == Seq::<String>::empty(),
            message.content@ == Seq::<char>::empty(),
    {
        ModuleMessage {
            timestamp: 0,
            name: String::new(),
            version: 0,
            dependencies: Vec::new(),
            content: String::new(),
        }
    }
}

/// Writes a module into a message: the name and the version always, the
/// timestamp and the content where there is one. The dependencies are not
/// written: the message keeps those it had.
pub fn build_module(
    msg: &mut ModuleMessage,
    timestamp: Option<u64>,
    name: &str,
    version: u16,
    dependencies: Option<Vec<&str>>,
    content: Option<&str>,
) -> (built: Result<(), String>)
    ensures
        built is Ok,
        final(msg).timestamp == match timestamp {
            Some(timestamp) => timestamp,
            None => old(msg).timestamp,
        },
        final(msg).name@ == name@,
        final(msg).version == version,
        final(msg).dependencies == old(msg).dependencies,
        final(msg).content@ == match content {
            Some(content) => content@,
            None => old(msg).content@,
        },
{
    if let Some(timestamp) = timestamp {
        msg.timestamp = timestamp;
    }
    msg.name = name.to_owned();
    msg.version = version;
    if let Some(content) = content {
        msg.content = content.to_owned();
    }
    Ok(())
}

} // verus!
