//! The upload registry: an in-memory map from an opaque upload id to the
//! collection name it was ingested under. Entries are appended on upload and
//! read on search; the latest binding for an id wins.

use vstd::prelude::*;

verus! {

/// One registered upload.
pub struct RegistryEntry {
    pub id: String,
    pub name: String,
}

/// Caller error: the given upload id was never registered. Reported
/// distinctly from internal failures.
#[derive(Debug, PartialEq, Eq, Structural, Clone, Copy)]
pub struct UnknownUploadId;

/// The collection name bound to an id: the latest binding, or nothing.
pub open spec fn lookup_spec(entries: Seq<RegistryEntry>, id: Seq<char>) -> Option<Seq<char>>
    decreases entries.len(),
{
    if entries.len() == 0 {
        None
    } else if entries.last().id@ == id {
        Some(entries.last().name@)
    } else {
        lookup_spec(entries.drop_last(), id)
    }
}

/// The id-to-collection map shared across requests.
pub struct UploadRegistry {
    pub entries: Vec<RegistryEntry>,
}

impl UploadRegistry {
    /// An empty registry: no id is known.
    pub fn new() -> (r: UploadRegistry)
        ensures
            r.entries@.len() == 0,
            forall|id: Seq<char>| lookup_spec(r.entries@, id) is None,
    {
        UploadRegistry { entries: Vec::new() }
    }

    /// Bind an id to a collection name. The new binding shadows any earlier
    /// binding of the same id; every other id resolves as before.
    pub fn insert(&mut self, id: String, name: String)
        ensures
            final(self).entries@ == old(self).entries@.push(RegistryEntry { id, name }),
            lookup_spec(final(self).entries@, id@) == Some(name@),
            forall|other: Seq<char>|
                other != id@ ==> lookup_spec(final(self).entries@, other) == lookup_spec(
                    old(self).entries@,
                    other,
                ),
    {
        self.entries.push(RegistryEntry { id, name });
        assert forall|other: Seq<char>|
            other != id@ implies lookup_spec(self.entries@, other) == lookup_spec(
            old(self).entries@,
            other,
        ) by {
            assert(self.entries@.drop_last() =~= old(self).entries@);
        }
        assert(self.entries@.drop_last() =~= old(self).entries@);
    }

    /// Resolve an id to its collection name, or report it unknown.
    pub fn collection_for(&self, id: &String) -> (r: Result<String, UnknownUploadId>)
        ensures
            r is Ok <==> lookup_spec(self.entries@, id@) is Some,
            r matches Ok(name) ==> lookup_spec(self.entries@, id@) == Some(name@),
    {
        let n = self.entries.len();
        assert(self.entries@.take(n as int) =~= self.entries@);
        let mut i = n;
        while i > 0
            invariant
                i <= n,
                n == self.entries@.len(),
                lookup_spec(self.entries@, id@) == lookup_spec(
                    self.entries@.take(i as int),
                    id@,
                ),
            decreases i,
        {
            i = i - 1;
            assert(self.entries@.take(i + 1).drop_last() =~= self.entries@.take(i as int));
            assert(self.entries@.take(i + 1).last() == self.entries@[i as int]);
            if self.entries[i].id == *id {
                let name = self.entries[i].name.clone();
                return Ok(name);
            }
        }
        assert(self.entries@.take(0) =~= Seq::<RegistryEntry>::empty());
        Err(UnknownUploadId)
    }
}

} // verus!
