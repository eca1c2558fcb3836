//! The file set a resolution run works over: canonical paths mapped to raw
//! text. The resolver never touches a real filesystem; the caller loads the
//! files it has and hands them over as plain values.

use vstd::prelude::*;
use crate::bytes_eq;

verus! {

/// One source file: canonical path and raw text.
pub struct FileEntry {
    pub path: Vec<u8>,
    pub text: Vec<u8>,
}

/// The set of files visible to a resolution run.
pub struct FsModel {
    pub files: Vec<FileEntry>,
}

/// The map a file sequence denotes: each path to its text, later entries
/// winning (well-formed models have no repeated path).
pub open spec fn map_of_files(files: Seq<FileEntry>) -> Map<Seq<u8>, Seq<u8>>
    decreases files.len(),
{
    if files.len() == 0 {
        Map::empty()
    } else {
        map_of_files(files.drop_last()).insert(files.last().path@, files.last().text@)
    }
}

impl View for FsModel {
    type V = Map<Seq<u8>, Seq<u8>>;

    open spec fn view(&self) -> Map<Seq<u8>, Seq<u8>> {
        map_of_files(self.files@)
    }
}

impl FsModel {
    /// No two entries name the same path.
    pub open spec fn wf(&self) -> bool {
        forall|i: int, j: int|
            0 <= i < j < self.files@.len() ==> self.files@[i].path@ != self.files@[j].path@
    }

    /// An empty file set.
    pub fn new() -> (r: FsModel)
        ensures
            r.wf(),
            r@ == Map::<Seq<u8>, Seq<u8>>::empty(),
            r.files@.len() == 0,
    {
        FsModel { files: Vec::new() }
    }

    /// Whether `path` names a file of the model.
    pub fn contains_path(&self, path: &Vec<u8>) -> (r: bool)
        ensures
            r <==> self@.dom().contains(path@),
    {
        proof {
            lemma_map_of_files_dom(self.files@);
        }
        let mut i: usize = 0;
        while i < self.files.len()
            invariant
                0 <= i <= self.files@.len(),
                forall|k: int| 0 <= k < i ==> self.files@[k].path@ != path@,
                self@.dom() =~= Set::new(
                    |p: Seq<u8>| exists|k: int| 0 <= k < self.files@.len() && self.files@[k].path@ == p,
                ),
            decreases self.files@.len() - i,
        {
            if bytes_eq(&self.files[i].path, path) {
                assert(self@.dom().contains(path@));
                return true;
            }
            i += 1;
        }
        assert(!self@.dom().contains(path@));
        false
    }

    /// The text of the file at `path`, if the model holds one.
    pub fn lookup(&self, path: &Vec<u8>) -> (r: Option<&Vec<u8>>)
        requires
            self.wf(),
        ensures
            match r {
                Some(t) => self@.dom().contains(path@) && self@[path@] == t@,
                None => !self@.dom().contains(path@),
            },
    {
        proof {
            lemma_map_of_files_dom(self.files@);
        }
        let mut i: usize = 0;
        while i < self.files.len()
            invariant
                0 <= i <= self.files@.len(),
                self.wf(),
                forall|k: int| 0 <= k < i ==> self.files@[k].path@ != path@,
                self@.dom() =~= Set::new(
                    |p: Seq<u8>| exists|k: int| 0 <= k < self.files@.len() && self.files@[k].path@ == p,
                ),
            decreases self.files@.len() - i,
        {
            if bytes_eq(&self.files[i].path, path) {
                proof {
                    lemma_map_of_files_at(self.files@, i as int);
                }
                return Some(&self.files[i].text);
            }
            i += 1;
        }
        assert(!self@.dom().contains(path@));
        None
    }

    /// Add a file under a path the model does not hold yet.
    pub fn add_file(&mut self, path: Vec<u8>, text: Vec<u8>)
        requires
            old(self).wf(),
            !old(self)@.dom().contains(path@),
        ensures
            final(self).wf(),
            final(self)@ == old(self)@.insert(path@, text@),
    {
        proof {
            lemma_map_of_files_dom(self.files@);
        }
        let ghost p = path@;
        self.files.push(FileEntry { path, text });
        proof {
            assert(self.files@.drop_last() =~= old(self).files@);
            assert forall|i: int, j: int|
                0 <= i < j < self.files@.len() implies self.files@[i].path@
                != self.files@[j].path@ by {
                if j == self.files@.len() - 1 {
                    assert(self.files@[i] == old(self).files@[i]);
                }
            }
        }
    }
}

/// The domain of the denoted map is exactly the set of entry paths.
pub proof fn lemma_map_of_files_dom(files: Seq<FileEntry>)
    ensures
        map_of_files(files).dom() =~= Set::new(
            |p: Seq<u8>| exists|k: int| 0 <= k < files.len() && files[k].path@ == p,
        ),
        map_of_files(files).dom().finite(),
    decreases files.len(),
{
    if files.len() == 0 {
    } else {
        lemma_map_of_files_dom(files.drop_last());
        assert forall|p: Seq<u8>| map_of_files(files).dom().contains(p) implies exists|k: int|
            0 <= k < files.len() && files[k].path@ == p by {
            if p == files.last().path@ {
                assert(files[files.len() - 1].path@ == p);
            } else {
                let k = choose|k: int| 0 <= k < files.drop_last().len()
                    && files.drop_last()[k].path@ == p;
                assert(files[k].path@ == p);
            }
        }
        assert forall|p: Seq<u8>| (exists|k: int| 0 <= k < files.len() && files[k].path@ == p)
            implies map_of_files(files).dom().contains(p) by {
            let k = choose|k: int| 0 <= k < files.len() && files[k].path@ == p;
            if k < files.len() - 1 {
                assert(files.drop_last()[k].path@ == p);
            }
        }
    }
}

/// In a well-formed file sequence, the map sends each entry's path to that
/// entry's text.
pub proof fn lemma_map_of_files_at(files: Seq<FileEntry>, i: int)
    requires
        0 <= i < files.len(),
        forall|a: int, b: int| 0 <= a < b < files.len() ==> files[a].path@ != files[b].path@,
    ensures
        map_of_files(files).dom().contains(files[i].path@),
        map_of_files(files)[files[i].path@] == files[i].text@,
    decreases files.len(),
{
    if i == files.len() - 1 {
    } else {
        lemma_map_of_files_at(files.drop_last(), i);
        assert(files.drop_last()[i] == files[i]);
        assert(files[i].path@ != files.last().path@);
    }
}

} // verus!
