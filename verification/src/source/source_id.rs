//! Source identification.
use std::sync::Arc;
use vstd::prelude::*;
use vstd::string::*;

verus! {

/// Another handle to a shared value.
///
/// Calls `Arc::clone`: the new handle points to the very same value, nothing of which
/// is copied.
#[verifier::external_body]
pub(crate) fn share<T>(value: &Arc<T>) -> (r: Arc<T>)
    ensures
        r == *value,
{
    Arc::clone(value)
}

/// Unique identifier for an audio source.
///
/// Cloning is cheap: clones share the text.
#[derive(Debug, Eq, Hash, PartialOrd, Ord)]
pub struct SourceId {
    id: Arc<String>,
}

impl View for SourceId {
    type V = Seq<char>;

    /// The text of the identifier.
    closed spec fn view(&self) -> Seq<char> {
        self.id@
    }
}

impl Clone for SourceId {
    fn clone(&self) -> (r: Self)
        ensures
            r == *self,
    {
        SourceId { id: share(&self.id) }
    }
}

impl PartialEq for SourceId {
    fn eq(&self, other: &Self) -> (r: bool) {
        *self.id == *other.id
    }
}

impl vstd::std_specs::cmp::PartialEqSpecImpl for SourceId {
    open spec fn obeys_eq_spec() -> bool {
        true
    }

    /// Two identifiers are equal where their texts are.
    open spec fn eq_spec(&self, other: &Self) -> bool {
        self@ == other@
    }
}

impl SourceId {
    /// Creates a new source ID from a string.
    pub fn new(id: &str) -> (r: Self)
        ensures
            r@ == id@,
    {
        SourceId { id: Arc::new(String::from_str(id)) }
    }

    /// Returns the ID as a string slice.
    pub fn as_str(&self) -> (r: &str)
        ensures
            r@ == self@,
    {
        self.id.as_str()
    }

    /// The text of the ID, for messages.
    pub fn to_text(&self) -> (r: String)
        ensures
            r@ == self@,
    {
        String::from_str(self.as_str())
    }
}

impl AsRef<str> for SourceId {
    fn as_ref(&self) -> (r: &str)
        ensures
            r@ == self@,
    {
        self.as_str()
    }
}

impl Default for SourceId {
    /// The name that events give a source without an identifier.
    fn default() -> (r: Self)
        ensures
            r@ == "default"@,
    {
        SourceId::new("default")
    }
}

impl From<&str> for SourceId {
    fn from(s: &str) -> (r: Self)
        ensures
            r@ == s@,
    {
        SourceId::new(s)
    }
}

impl vstd::std_specs::convert::FromSpecImpl<&str> for SourceId {
    open spec fn obeys_from_spec() -> bool {
        false
    }

    open spec fn from_spec(s: &str) -> Self {
        arbitrary()
    }
}

impl From<String> for SourceId {
    fn from(s: String) -> (r: Self)
        ensures
            r@ == s@,
    {
        SourceId { id: Arc::new(s) }
    }
}

impl vstd::std_specs::convert::FromSpecImpl<String> for SourceId {
    open spec fn obeys_from_spec() -> bool {
        false
    }

    open spec fn from_spec(s: String) -> Self {
        arbitrary()
    }
}

/// The text of a source, or the name that events give a source without an identifier.
pub open spec fn text_or_default(id: Option<SourceId>) -> Seq<char> {
    match id {
        Some(id) => id@,
        None => "default"@,
    }
}

/// The identifier, or the one that events give a source without one.
pub(crate) fn id_or_default(id: &Option<SourceId>) -> (r: SourceId)
    ensures
        r@ == text_or_default(*id),
{
    match id {
        Some(id) => id.clone(),
        None => SourceId::default(),
    }
}

/// An identifier, if there is one, for another owner.
pub(crate) fn clone_id(id: &Option<SourceId>) -> (r: Option<SourceId>)
    ensures
        r == *id,
{
    match id {
        Some(id) => Some(id.clone()),
        None => None,
    }
}

/// A fresh list of the same identifiers.
pub(crate) fn clone_ids(ids: &Vec<SourceId>) -> (r: Vec<SourceId>)
    ensures
        r@ == ids@,
{
    let mut r: Vec<SourceId> = Vec::new();
    let mut i: usize = 0;
    while i < ids.len()
        invariant
            i <= ids.len(),
            r@ == ids@.take(i as int),
        decreases ids.len() - i,
    {
        r.push(ids[i].clone());
        i = i + 1;
    }
    assert(ids@.take(i as int) =~= ids@);
    r
}

} // verus!
