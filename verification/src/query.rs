//! Searches of the catalog's store, as the administration states them, and
//! the parameters of an operation as they are typed.

use vstd::prelude::*;

verus! {

/// A search for modules: by name, by version, by both or by neither. The
/// limit 0 means that there is none.
pub struct ModuleQuery {
    pub name: Option<String>,
    pub version: Option<i32>,
    pub highest_version_first: bool,
    pub limit: i32,
}

/// A search for operations: by domain, by module, by both or by neither.
/// They come with the latest timestamp first, or else in the order in which
/// they were stored. The limit 0 means that there is none.
pub struct OperationQuery {
    pub domain: Option<String>,
    pub module: Option<String>,
    pub latest_first: bool,
    pub limit: i32,
}

/// The text of an optional string.
pub open spec fn text_of(text: Option<&str>) -> Option<Seq<char>> {
    match text {
        Some(text) => Some(text@),
        None => None,
    }
}

/// The text of an optional owned string.
pub open spec fn owned_text(text: Option<String>) -> Option<Seq<char>> {
    match text {
        Some(text) => Some(text@),
        None => None,
    }
}

/// Makes an owned string of an optional one.
fn owned(text: Option<&str>) -> (copy: Option<String>)
    ensures
        owned_text(copy) == text_of(text),
{
    match text {
        Some(text) => Some(text.to_owned()),
        None => None,
    }
}

/// The search for one module by its name, and by its version where one is
/// given.
pub fn find_module(module_name: &str, version: Option<i32>, order_by_version: bool) -> (query:
    ModuleQuery)
    ensures
        owned_text(query.name) == Some(module_name@),
        query.version == version,
        query.highest_version_first == order_by_version,
        query.limit == 1,
{
    ModuleQuery {
        name: Some(module_name.to_owned()),
        version,
        highest_version_first: order_by_version,
        limit: 1,
    }
}

/// The search for modules by what is given of name and version.
pub fn find_modules(
    module_name: Option<&str>,
    version: Option<i32>,
    limit: Option<i32>,
    order_by_version: bool,
) -> (query: ModuleQuery)
    ensures
        owned_text(query.name) == text_of(module_name),
        query.version == version,
        query.highest_version_first == order_by_version,
        query.limit == match limit {
            Some(limit) => limit,
            None => 0,
        },
{
    ModuleQuery {
        name: owned(module_name),
        version,
        highest_version_first: order_by_version,
        limit: match limit {
            Some(limit) => limit,
            None => 0,
        },
    }
}

/// The search for one operation by its domain, and by its module where one
/// is given.
pub fn find_operation(domain: &str, module_name: Option<&str>, order_by_timestamp: bool) -> (query:
    OperationQuery)
    ensures
        owned_text(query.domain) == Some(domain@),
        owned_text(query.module) == text_of(module_name),
        query.latest_first == order_by_timestamp,
        query.limit == 1,
{
    OperationQuery {
        domain: Some(domain.to_owned()),
        module: owned(module_name),
        latest_first: order_by_timestamp,
        limit: 1,
    }
}

/// The search for operations by what is given of domain and module.
pub fn find_operations(
    domain: Option<&str>,
    module_name: Option<&str>,
    limit: Option<i32>,
    order_by_timestamp: bool,
) -> (query: OperationQuery)
    ensures
        owned_text(query.domain) == text_of(domain),
        owned_text(query.module) == text_of(module_name),
        query.latest_first == order_by_timestamp,
        query.limit == match limit {
            Some(limit) => limit,
            None => 0,
        },
{
    OperationQuery {
        domain: owned(domain),
        module: owned(module_name),
        latest_first: order_by_timestamp,
        limit: match limit {
            Some(limit) => limit,
            None => 0,
        },
    }
}

/// The place of the first `|` of `text` from `from` on, or the length of
/// `text` where there is none.
pub open spec fn bar_from(text: Seq<char>, from: int) -> int
    decreases text.len() - from,
{
    if from < 0 || from >= text.len() {
        text.len() as int
    } else if text[from] == '|' {
        from
    } else {
        bar_from(text, from + 1)
    }
}

/// A parameter as it is typed, `name|value`: the name is what stands before
/// the first `|`, the value what stands between the first `|` and the
/// second, or the end. Without a `|` it is no parameter.
pub open spec fn parameter_of(text: Seq<char>) -> Option<(Seq<char>, Seq<char>)> {
    let first = bar_from(text, 0);
    if first == text.len() {
        None
    } else {
        Some((text.subrange(0, first), text.subrange(first + 1, bar_from(text, first + 1))))
    }
}

/// The first `|` from `from` on stands within the text or is its length,
/// and no `|` stands before it.
pub proof fn lemma_bar_from(text: Seq<char>, from: int)
    requires
        0 <= from <= text.len(),
    ensures
        from <= bar_from(text, from) <= text.len(),
        bar_from(text, from) < text.len() ==> text[bar_from(text, from)] == '|',
        forall|i: int| from <= i < bar_from(text, from) ==> text[i] != '|',
    decreases text.len() - from,
{
    if from < text.len() && text[from] != '|' {
        lemma_bar_from(text, from + 1);
    }
}

/// Finds the first `|` of `text` from `from` on.
fn find_bar(text: &str, from: usize) -> (at: usize)
    requires
        from <= text@.len() <= usize::MAX,
    ensures
        at == bar_from(text@, from as int),
{
    let ghost chars = text@;
    let mut place: usize = 0;
    let mut found: Option<usize> = None;
    for c in it: text.chars()
        invariant
            it.seq() == chars,
            chars.len() <= usize::MAX,
            place == it.index(),
            from <= chars.len(),
            match found {
                Some(at) => from <= at < place && chars[at as int] == '|' && forall|i: int|
                    from <= i < at ==> chars[i] != '|',
                None => forall|i: int| from <= i < place ==> chars[i] != '|',
            },
    {
        if found.is_none() && place >= from && c == '|' {
            found = Some(place);
        }
        place += 1;
    }
    proof {
        lemma_bar_from(chars, from as int);
        let bar = bar_from(chars, from as int);
        match found {
            Some(at) => {
                if bar < at {
                    assert(chars[bar] == '|');
                }
            },
            None => {
                if bar < chars.len() {
                    assert(chars[bar] == '|');
                }
            },
        }
    }
    match found {
        Some(at) => at,
        None => place,
    }
}

/// Reads a parameter as it is typed.
pub fn split_parameter(text: &str) -> (parameter: Option<(String, String)>)
    ensures
        match parameter {
            Some((name, value)) => parameter_of(text@) == Some((name@, value@)),
            None => parameter_of(text@) is None,
        },
{
    let length = text.unicode_len();
    let first = find_bar(text, 0);
    if first == length {
        None
    } else {
        proof {
            lemma_bar_from(text@, 0);
            lemma_bar_from(text@, first + 1);
        }
        let second = find_bar(text, first + 1);
        let name = text.substring_char(0, first).to_owned();
        let value = text.substring_char(first + 1, second).to_owned();
        Some((name, value))
    }
}

} // verus!
