//! The metadata a mod declares in its `mod.toml`, as plain strings.

use vstd::prelude::*;

use crate::modding::types::{keyed_by_text, keyed_entries, keys_distinct};

verus! {

/// A mod's metadata as written: ids and version requirements are plain
/// strings, and missing dependency tables are empty.
#[derive(Debug, Clone)]
pub struct Metadata {
    pub id: String,
    pub name: String,
    pub version: String,
    pub author: String,
    pub dependencies: Vec<(String, String)>,
    pub optional_dependencies: Vec<(String, String)>,
}

impl Metadata {
    /// The metadata from the fields of a parsed file; an absent dependency
    /// table counts as an empty one. Each table holds an id once: an id given
    /// twice keeps its first place and the requirement given last.
    pub fn from_raw(
        id: String,
        name: String,
        version: String,
        author: String,
        dependencies: Option<Vec<(String, String)>>,
        optional_dependencies: Option<Vec<(String, String)>>,
    ) -> (r: Metadata)
        ensures
            r.id@ == id@,
            r.name@ == name@,
            r.version@ == version@,
            r.author@ == author@,
            r.dependencies@ == keyed_entries(
                match dependencies {
                    Some(d) => d@,
                    None => Seq::empty(),
                },
            ),
            r.optional_dependencies@ == keyed_entries(
                match optional_dependencies {
                    Some(d) => d@,
                    None => Seq::empty(),
                },
            ),
            keys_distinct(r.dependencies@),
            keys_distinct(r.optional_dependencies@),
    {
        let dependencies = match dependencies {
            Some(d) => d,
            None => Vec::new(),
        };
        let optional_dependencies = match optional_dependencies {
            Some(d) => d,
            None => Vec::new(),
        };
        Metadata {
            id,
            name,
            version,
            author,
            dependencies: keyed_by_text(dependencies),
            optional_dependencies: keyed_by_text(optional_dependencies),
        }
    }
}

} // verus!
