use vstd::prelude::*;

verus! {

/// One file handed to the encoder: a relative path and its bytes.
pub struct FileEntry {
    pub path: Vec<u8>,
    pub data: Vec<u8>,
}

pub struct FileEntryModel {
    pub path: Seq<u8>,
    pub data: Seq<u8>,
}

impl View for FileEntry {
    type V = FileEntryModel;

    open spec fn view(&self) -> FileEntryModel {
        FileEntryModel { path: self.path@, data: self.data@ }
    }
}

/// The extracted files the encoder may read, handed in by the caller; the
/// library itself performs no disk access.
pub struct FileStore {
    pub files: Vec<FileEntry>,
}

impl View for FileStore {
    type V = Seq<FileEntryModel>;

    open spec fn view(&self) -> Seq<FileEntryModel> {
        Seq::new(self.files@.len(), |i: int| self.files@[i]@)
    }
}

pub open spec fn store_lookup_from(sm: Seq<FileEntryModel>, path: Seq<u8>, i: int) -> Option<
    Seq<u8>,
>
    decreases sm.len() - i,
{
    if i < 0 || i >= sm.len() {
        None
    } else if sm[i].path == path {
        Some(sm[i].data)
    } else {
        store_lookup_from(sm, path, i + 1)
    }
}

/// The data of the first entry whose path equals `path`.
pub open spec fn store_lookup(sm: Seq<FileEntryModel>, path: Seq<u8>) -> Option<Seq<u8>> {
    store_lookup_from(sm, path, 0)
}

impl FileStore {
    /// Fetch a file's bytes by exact path.
    pub fn lookup(&self, path: &[u8]) -> (r: Option<Vec<u8>>)
        ensures
            match r {
                Some(v) => store_lookup(self@, path@) == Some(v@),
                None => store_lookup(self@, path@) is None,
            },
    {
        let mut i: usize = 0;
        while i < self.files.len()
            invariant
                0 <= i <= self.files@.len(),
                store_lookup(self@, path@) == store_lookup_from(self@, path@, i as int),
            decreases self.files@.len() - i,
        {
            proof {
                assert(self@[i as int] == self.files@[i as int]@);
            }
            if crate::textfmt::eq_bytes(self.files[i].path.as_slice(), path) {
                return Some(vstd::slice::slice_to_vec(self.files[i].data.as_slice()));
            }
            i += 1;
        }
        None
    }
}

} // verus!
