//! The index: its settings, and the documents that go into it.
use vstd::prelude::*;
use vstd::string::*;

verus! {

/// The branch that is indexed.
pub const MAIN_BRANCH: &'static str = "main";

/// The field of a document that holds the commit message.
pub const INDEX_FIELD: &'static str = "message";

/// The directory of the index, in the root of the repository.
pub const INDEX_DIRECTORY: &'static str = ".varro";

/// The file in the directory of the index that names the last commit indexed.
pub const LAST_FILE: &'static str = ".last";

/// The size from which on the engine leaves a segment alone when it compacts.
pub const VARRO_MIN_SEGMENT_SIZE: usize = 512 * 1024 * 1024;

/// The size of the engine's write buffer.
pub const VARRO_MAX_BUFFER_SIZE: usize = 1024 * 1024;

/// How often the engine looks for segments to compact, in seconds.
pub const VARRO_COMPACTION_SECONDS: u64 = 60;

/// A document for the engine: the name of a commit and its message.
#[derive(Debug)]
pub struct IndexDocument {
    pub id: String,
    pub field: String,
    pub contents: String,
    pub stored: bool,
}

impl IndexDocument {
    /// The document holds the message of the commit, to be found under its name.
    pub open spec fn is_for(self, row: (String, String)) -> bool {
        &&& self.id@ == row.0@
        &&& self.field@ == INDEX_FIELD@
        &&& self.contents@ == row.1@
        &&& self.stored
    }
}

/// Documents to index, and how many they are.
#[derive(Debug)]
pub struct IndexJob {
    pub total: u64,
    pub documents: Vec<IndexDocument>,
}

/// The documents for the commits in `rows`, one for each and in the same order;
/// nothing to do where there are no rows.
pub fn index_job(rows: Vec<(String, String)>) -> (r: Option<IndexJob>)
    ensures
        r is None <==> rows@.len() == 0,
        r matches Some(job) ==> {
            &&& job.total == rows@.len()
            &&& job.documents@.len() == rows@.len()
            &&& forall|i: int|
                0 <= i < rows@.len() ==> (#[trigger] job.documents@[i]).is_for(rows@[i])
            &&& forall|i: int|
                0 <= i < rows@.len() ==> (#[trigger] job.documents@[i]).id@ == rows@[i].0@
                    && job.documents@[i].contents@ == rows@[i].1@ && job.documents@[i].stored
        },
{
    if rows.len() == 0 {
        return None;
    }
    let total: u64 = rows.len() as u64;
    let mut documents: Vec<IndexDocument> = Vec::new();
    let mut i: usize = 0;
    while i < rows.len()
        invariant
            i <= rows@.len(),
            documents@.len() == i,
            forall|k: int| 0 <= k < i ==> (#[trigger] documents@[k]).is_for(rows@[k]),
        decreases rows@.len() - i,
    {
        let document: IndexDocument = IndexDocument {
            id: rows[i].0.clone(),
            field: INDEX_FIELD.to_owned(),
            contents: rows[i].1.clone(),
            stored: true,
        };
        documents.push(document);
        i = i + 1;
    }
    Some(IndexJob { total, documents })
}

/// A document is under the name of its commit and holds its whole message, stored,
/// in the field `message`; so two rows that differ have documents that differ.
pub proof fn law_document_holds_the_row(document: IndexDocument, row: (String, String))
    requires
        document.is_for(row),
    ensures
        document.id@ == row.0@,
        document.contents@ == row.1@,
        document.stored,
        document.field@ == seq!['m', 'e', 's', 's', 'a', 'g', 'e'],
{
    reveal_strlit("message");
    assert(document.field@ =~= seq!['m', 'e', 's', 's', 'a', 'g', 'e']);
}

} // verus!
