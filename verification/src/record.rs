//! One measured file.

use crate::extension::classification;
use vstd::prelude::*;

verus! {

/// What a record holds, as plain values.
pub ghost struct RecordView {
    /// The path of the file.
    pub path: Seq<char>,
    /// The number of lines read from it.
    pub line_count: nat,
    /// The extension under which it is counted.
    pub extension: Seq<char>,
}

impl RecordView {
    /// A record is sound where its extension is the one under which its
    /// path is counted, which puts it on the allow-list.
    pub open spec fn sound(self) -> bool {
        classification(self.path) == Some(self.extension)
    }
}

/// Whether every record is sound: counted under the extension of its own
/// path, which is on the allow-list.
pub open spec fn all_sound(files: Seq<RecordView>) -> bool {
    forall|k: int| 0 <= k < files.len() ==> (#[trigger] files[k]).sound()
}

/// A file that was measured: where it lies, how many lines it has, and the
/// extension it is counted under.
#[derive(Debug)]
pub struct FileRecord {
    pub path: String,
    pub line_count: usize,
    pub extension: String,
}

impl View for FileRecord {
    type V = RecordView;

    open spec fn view(&self) -> RecordView {
        RecordView {
            path: self.path@,
            line_count: self.line_count as nat,
            extension: self.extension@,
        }
    }
}

impl DeepView for FileRecord {
    type V = RecordView;

    open spec fn deep_view(&self) -> RecordView {
        self@
    }
}

impl FileRecord {
    /// A second record with the same content.
    pub fn duplicate(&self) -> (copy: FileRecord)
        ensures
            copy@ == self@,
    {
        FileRecord {
            path: self.path.clone(),
            line_count: self.line_count,
            extension: self.extension.clone(),
        }
    }
}

} // verus!
