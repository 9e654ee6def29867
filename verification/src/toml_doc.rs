//! What the config merge reads from an existing config through the `toml`
//! crate: its top-level entries and, for each table, its keys with each
//! value written by the `toml` serializer as a one-entry document.
use vstd::prelude::*;

verus! {

/// An existing config as the merge reads it: the top-level entries in the
/// table's order, each a name and, when it is a table, its keys in order,
/// each with the serializer's one-entry document for its value (`None`
/// where the serializer fails).
pub type DocEntries = Seq<(Seq<char>, Option<Seq<(Seq<char>, Option<Seq<char>>)>>)>;

/// Whether `toml::from_str::<toml::Value>` accepts `text` as a TOML document.
pub uninterp spec fn toml_accepts(text: Seq<char>) -> bool;

/// The entries of the TOML document `text`, each value of a table written
/// by `toml::to_string` as the document that assigns it to `key` alone.
pub uninterp spec fn toml_entry_docs(text: Seq<char>, key: Seq<char>) -> DocEntries;

/// The plain text of what `toml_entry_docs_of` returns.
pub open spec fn docs_view(v: Seq<(String, Option<Vec<(String, Option<String>)>>)>) -> DocEntries {
    v.map_values(
        |e: (String, Option<Vec<(String, Option<String>)>>)|
            (
                e.0@,
                match e.1 {
                    Some(kvs) => Some(
                        kvs@.map_values(
                            |kv: (String, Option<String>)|
                                (
                                    kv.0@,
                                    match kv.1 {
                                        Some(d) => Some(d@),
                                        None => None,
                                    },
                                ),
                        ),
                    ),
                    None => None,
                },
            ),
    )
}

/// No name occurs twice among the entries, and no key twice in a table.
pub open spec fn docs_distinct(ds: DocEntries) -> bool {
    &&& forall|a: int, b: int| 0 <= a < b < ds.len() ==> (#[trigger] ds[a]).0 != (#[trigger] ds[b]).0
    &&& forall|a: int|
        0 <= a < ds.len() ==> match (#[trigger] ds[a]).1 {
            Some(kvs) => forall|x: int, y: int|
                0 <= x < y < kvs.len() ==> (#[trigger] kvs[x]).0 != (#[trigger] kvs[y]).0,
            None => true,
        }
}

/// Reads the TOML document `text` (`toml::from_str::<toml::Value>`): its
/// top-level entries and, for each table among them, its keys with each
/// value written by `toml::to_string` as the one-entry table `key = value`.
/// Claimed: the result is `Ok` exactly when the parser accepts `text`;
/// then it is the one that `text` and `key` determine, and, the tables being
/// maps (`toml::map::Map`, a `BTreeMap` here), no name occurs twice and no
/// key twice in a table. `Err` carries the parser's message.
#[verifier::external_body]
pub(crate) fn toml_entry_docs_of(text: &str, key: &str) -> (r: Result<
    Vec<(String, Option<Vec<(String, Option<String>)>>)>,
    String,
>)
    ensures
        r is Ok <==> toml_accepts(text@),
        r matches Ok(v) ==> docs_view(v@) == toml_entry_docs(text@, key@) && docs_distinct(
            docs_view(v@),
        ),
{
    let root: toml::Value = toml::from_str(text).map_err(|e| e.to_string())?;
    let mut out = Vec::new();
    for (name, value) in root.as_table().into_iter().flatten() {
        let docs = match value.as_table() {
            Some(inner) => Some(inner.iter().map(|(k, v)| (k.clone(), toml::to_string(
                &toml::Value::Table(toml::Table::from_iter([(key.to_string(), v.clone())])),
            ).ok())).collect()),
            None => None,
        };
        out.push((name.clone(), docs));
    }
    Ok(out)
}

} // verus!
