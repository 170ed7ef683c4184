//! The database of a project: the index of its sources and the registry of
//! its importers.

use vstd::prelude::*;
use crate::asset::database::importer::AssetImporters;
use crate::asset::database::library::AssetLibrary;
use crate::asset::io::FileSystem;

pub mod batch;
pub mod dependents;
pub mod importer;
pub mod library;
pub mod runs;

verus! {

/// The index of the sources and the registry of the importers. The database
/// is a plain value that its owner hands to the pipeline; a caller that
/// shares it between threads puts a lock around it.
#[verifier::reject_recursive_types(F)]
pub struct AssetDatabase<F: FileSystem> {
    pub library: AssetLibrary,
    pub importers: AssetImporters<F>,
}

impl<F: FileSystem> AssetDatabase<F> {
    /// Both parts are well-formed.
    pub open spec fn wf(&self) -> bool {
        self.library.wf() && self.importers.wf()
    }

    pub fn new() -> (db: AssetDatabase<F>)
        ensures
            db.wf(),
            db.library@ == Seq::<(crate::asset::AssetId, Seq<char>)>::empty(),
            db.importers.extensions() == Map::<Seq<char>, crate::asset::AssetType>::empty(),
    {
        AssetDatabase { library: AssetLibrary::new(), importers: AssetImporters::new() }
    }

    pub fn library(&self) -> (library: &AssetLibrary)
        ensures
            *library == self.library,
    {
        &self.library
    }

    pub fn importers(&self) -> (importers: &AssetImporters<F>)
        ensures
            *importers == self.importers,
    {
        &self.importers
    }
}

} // verus!
