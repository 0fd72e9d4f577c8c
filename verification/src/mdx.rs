//! MDX dictionary import: progress reports and the batching of the import.

use vstd::prelude::*;
use crate::text::{chars_of, push_str, string_of};

verus! {

/// Progress of an MDX import.
#[derive(Debug, Clone)]
pub struct MdxImportProgress {
    pub stage: String,
    pub entries: usize,
}

/// Entries written per transaction of an import.
pub const MDX_BATCH: usize = 5000;

/// After an entry is handled with `count` entries stored so far, the
/// transaction is committed and progress reported when a positive multiple
/// of the batch size has been stored.
pub fn batch_due(count: usize) -> (r: bool)
    ensures
        r == (count > 0 && count % 5000 == 0),
{
    count % 5000 == 0 && count > 0
}

/// One record of a dictionary file: an entry's HTML, or the key it
/// redirects to.
#[derive(Debug, Clone)]
pub enum MdxRecord {
    Content(String),
    Redirect(String),
}

/// An import under way: the entries stored so far, and the redirects kept
/// to copy at the end (key, target).
#[derive(Debug, Clone)]
pub struct MdxTally {
    pub count: usize,
    pub redirects: Vec<(String, String)>,
}

impl MdxTally {
    /// Nothing read yet.
    pub fn new() -> (r: MdxTally)
        ensures
            r.count == 0,
            r.redirects@.len() == 0,
    {
        MdxTally { count: 0, redirects: Vec::new() }
    }

    /// Takes the record of `key`: an entry is counted (the caller stores
    /// it), a redirect is kept. The result tells whether the batch is due:
    /// commit and report, as `batch_due` says for the new count.
    pub fn record(&mut self, key: String, rec: MdxRecord) -> (due: bool)
        requires
            rec is Content ==> old(self).count < usize::MAX,
        ensures
            match rec {
                MdxRecord::Content(_) => final(self).count == old(self).count + 1 && final(self).redirects@
                    == old(self).redirects@,
                MdxRecord::Redirect(t) => final(self).count == old(self).count && final(self).redirects@
                    == old(self).redirects@.push((key, t)),
            },
            due == (final(self).count > 0 && final(self).count % 5000 == 0),
    {
        match rec {
            MdxRecord::Content(_) => {
                self.count = self.count + 1;
            },
            MdxRecord::Redirect(t) => {
                self.redirects.push((key, t));
            },
        }
        batch_due(self.count)
    }
}

/// A report of an import: its stage and the entries stored.
pub fn mdx_progress(done: bool, entries: usize) -> (r: MdxImportProgress)
    ensures
        r.stage@ == if done {
            "完成"@
        } else {
            "导入词条…"@
        },
        r.entries == entries,
{
    let v = if done {
        chars_of("完成")
    } else {
        chars_of("导入词条…")
    };
    MdxImportProgress { stage: string_of(v.as_slice()), entries }
}

/// The error of a file that cannot be opened as a dictionary.
pub fn mdx_open_error(msg: &str) -> (r: String)
    ensures
        r@ == "无法打开 MDX 文件: "@ + msg@,
{
    let mut v = chars_of("无法打开 MDX 文件: ");
    push_str(&mut v, msg);
    string_of(v.as_slice())
}

} // verus!
