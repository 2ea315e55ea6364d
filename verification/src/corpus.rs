use vstd::prelude::*;

verus! {

/// One documentation source file: a stable identifier derived from the file
/// name, together with the file's raw text. Records are immutable once
/// loaded; the loader's collection is consumed when the index is built.
#[derive(Debug)]
pub struct MarkdownFile {
    pub id: String,
    pub content: String,
}

impl MarkdownFile {
    pub fn new(id: String, content: String) -> (d: MarkdownFile)
        ensures
            d.id@ == id@,
            d.content@ == content@,
    {
        MarkdownFile { id, content }
    }
}

impl Clone for MarkdownFile {
    fn clone(&self) -> (d: Self)
        ensures
            d == *self,
    {
        MarkdownFile { id: self.id.clone(), content: self.content.clone() }
    }
}

} // verus!
