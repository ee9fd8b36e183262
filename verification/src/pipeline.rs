//! Batch bookkeeping: which files are images the pipeline takes, and the
//! summary of how processing went.

use vstd::prelude::*;

use std::path::PathBuf;

verus! {

#[verifier::external_type_specification]
#[verifier::external_body]
pub struct ExPathBuf(PathBuf);

/// The lowercase file extensions of the image formats the pipeline takes:
/// jpg, jpeg, png, bmp, tiff, tif and webp.
pub open spec fn supported_extensions() -> Seq<Seq<char>> {
    seq![
        seq!['j', 'p', 'g'],
        seq!['j', 'p', 'e', 'g'],
        seq!['p', 'n', 'g'],
        seq!['b', 'm', 'p'],
        seq!['t', 'i', 'f', 'f'],
        seq!['t', 'i', 'f'],
        seq!['w', 'e', 'b', 'p'],
    ]
}

/// ASCII lowercase of a character; other characters are unchanged.
pub open spec fn ascii_lower(c: char) -> char {
    if 'A' <= c && c <= 'Z' {
        ((c as u32) + 32) as char
    } else {
        c
    }
}

/// ASCII lowercase of a string.
pub open spec fn ascii_lower_str(s: Seq<char>) -> Seq<char> {
    Seq::new(s.len(), |i: int| ascii_lower(s[i]))
}

/// An extension is supported when its ASCII lowercase is one of the
/// supported extensions.
pub open spec fn is_supported_ext(ext: Seq<char>) -> bool {
    supported_extensions().contains(ascii_lower_str(ext))
}

/// Whether an extension is supported does not depend on its ASCII case:
/// an extension and its lowercase are supported alike.
pub proof fn lemma_extension_case_insensitive(ext: Seq<char>)
    ensures
        is_supported_ext(ascii_lower_str(ext)) == is_supported_ext(ext),
{
    assert forall|i: int| 0 <= i < ext.len() implies #[trigger] ascii_lower(ascii_lower(ext[i])) == ascii_lower(ext[i]) by {
        let c = ext[i];
        if 'A' <= c && c <= 'Z' {
            assert((((c as u32) + 32) as char) as u32 == (c as u32) + 32);
        }
    }
    assert(ascii_lower_str(ascii_lower_str(ext)) =~= ascii_lower_str(ext));
}

fn lower_char(c: char) -> (res: char)
    ensures
        res == ascii_lower(c),
{
    if 'A' <= c && c <= 'Z' {
        let code = (c as u32) + 32;
        assert(0x61 <= code <= 0x7a);
        let b = code as u8;
        b as char
    } else {
        c
    }
}

/// Whether the ASCII lowercase of `ext` is `target`.
fn lowercase_equals(ext: &str, target: &[char]) -> (res: bool)
    ensures
        res == (ascii_lower_str(ext@) == target@),
{
    let n = ext.unicode_len();
    if n != target.len() {
        assert(ascii_lower_str(ext@).len() != target@.len());
        return false;
    }
    let mut i: usize = 0;
    while i < n
        invariant
            n == ext@.len() == target@.len(),
            i <= n,
            forall|k: int| 0 <= k < i ==> ascii_lower(#[trigger] ext@[k]) == target@[k],
        decreases n - i,
    {
        let c = lower_char(ext.get_char(i));
        if c != target[i] {
            assert(ascii_lower_str(ext@)[i as int] != target@[i as int]);
            return false;
        }
        i = i + 1;
    }
    assert(ascii_lower_str(ext@) =~= target@);
    true
}

/// Checks whether a file extension names a supported image format,
/// ignoring ASCII case.
pub fn is_supported_extension(ext: &str) -> (res: bool)
    ensures
        res == is_supported_ext(ext@),
{
    let targets: [&[char]; 7] = [
        &['j', 'p', 'g'],
        &['j', 'p', 'e', 'g'],
        &['p', 'n', 'g'],
        &['b', 'm', 'p'],
        &['t', 'i', 'f', 'f'],
        &['t', 'i', 'f'],
        &['w', 'e', 'b', 'p'],
    ];
    let mut i: usize = 0;
    while i < 7
        invariant
            i <= 7,
            forall|k: int| 0 <= k < 7 ==> (#[trigger] targets@[k])@ == supported_extensions()[k],
            forall|k: int| 0 <= k < i ==> ascii_lower_str(ext@) != supported_extensions()[k],
        decreases 7 - i,
    {
        if lowercase_equals(ext, targets[i]) {
            assert(supported_extensions()[i as int] == ascii_lower_str(ext@));
            return true;
        }
        i = i + 1;
    }
    false
}

/// The text of a path's extension, as `Path::extension` followed by
/// `OsStr::to_str` gives it: `None` when the path has no extension or the
/// extension is not valid UTF-8. Both calls depend on the path alone.
pub uninterp spec fn path_extension_text(path: PathBuf) -> Option<Seq<char>>;

/// The view of an optional string slice.
pub open spec fn text_view(t: Option<&str>) -> Option<Seq<char>> {
    match t {
        Some(s) => Some(s@),
        None => None,
    }
}

/// Calls `Path::extension` and `OsStr::to_str`: the path's extension, when it
/// has one that is valid UTF-8. The contract names that result
/// (`path_extension_text`); which part of the path it is, is left unsaid.
#[verifier::external_body]
fn extension_text(path: &PathBuf) -> (res: Option<&str>)
    ensures
        text_view(res) == path_extension_text(*path),
{
    path.extension().and_then(|ext| ext.to_str())
}

/// Checks if the given path has a supported image extension (ignoring ASCII case).
///
/// The answer is `is_supported_extension` of the path's extension, and
/// false when the path has none or it is not valid UTF-8.
pub fn is_supported_image(path: &PathBuf) -> (res: bool)
    ensures
        res == (match path_extension_text(*path) {
            Some(ext) => is_supported_ext(ext),
            None => false,
        }),
{
    match extension_text(path) {
        Some(ext) => is_supported_extension(ext),
        None => false,
    }
}

/// The text of a path's file stem, as `Path::file_stem` followed by
/// `OsStr::to_str` gives it: `None` when the path has no file name or the
/// stem is not valid UTF-8. Both calls depend on the path alone.
pub uninterp spec fn path_stem_text(path: PathBuf) -> Option<Seq<char>>;

/// Calls `Path::file_stem` and `OsStr::to_str`: the path's file stem, when it
/// has one that is valid UTF-8. The contract names that result
/// (`path_stem_text`); which part of the path it is, is left unsaid.
#[verifier::external_body]
fn stem_text(path: &PathBuf) -> (res: Option<&str>)
    ensures
        text_view(res) == path_stem_text(*path),
{
    path.file_stem().and_then(|stem| stem.to_str())
}

/// The name under which outputs of an image are saved: the file stem of its
/// path, or `"strip"` when the path has no stem that is valid UTF-8.
pub fn item_file_stem(path: &PathBuf) -> (res: &str)
    ensures
        res@ == (match path_stem_text(*path) {
            Some(stem) => stem,
            None => "strip"@,
        }),
{
    match stem_text(path) {
        Some(stem) => stem,
        None => "strip",
    }
}

/// Outcome status of processing an individual image item.
#[derive(Debug, Clone, Copy, PartialEq, Eq)]
pub enum ItemProcessingOutcome {
    /// Item was processed successfully.
    Success,
    /// Item processing encountered an error.
    Failure,
}

/// Execution summary of batch processing.
#[derive(Debug, Clone, Copy, PartialEq, Eq)]
pub struct ProcessSummary {
    /// Number of verified input image files received.
    pub total_input: usize,
    /// Number of images successfully processed.
    pub successful_count: usize,
    /// Number of images that encountered errors.
    pub failed_count: usize,
}

impl Default for ProcessSummary {
    fn default() -> (res: Self)
        ensures
            res.total_input == 0,
            res.successful_count == 0,
            res.failed_count == 0,
    {
        ProcessSummary { total_input: 0, successful_count: 0, failed_count: 0 }
    }
}

/// Running tally of outcomes.
#[derive(Debug, Clone, Copy, PartialEq, Eq)]
struct ItemProcessingCounts {
    successful_count: usize,
    failed_count: usize,
}

/// How many of the outcomes are `o`.
pub open spec fn count_outcome(s: Seq<ItemProcessingOutcome>, o: ItemProcessingOutcome) -> nat
    decreases s.len(),
{
    if s.len() == 0 {
        0
    } else {
        count_outcome(s.drop_last(), o) + if s.last() == o {
            1nat
        } else {
            0nat
        }
    }
}

impl ItemProcessingCounts {
    fn zero() -> (res: Self)
        ensures
            res.successful_count == 0,
            res.failed_count == 0,
    {
        ItemProcessingCounts { successful_count: 0, failed_count: 0 }
    }

    fn from_outcome(outcome: ItemProcessingOutcome) -> (res: Self)
        ensures
            res.successful_count == (if outcome == ItemProcessingOutcome::Success {
                1int
            } else {
                0int
            }),
            res.failed_count == (if outcome == ItemProcessingOutcome::Failure {
                1int
            } else {
                0int
            }),
    {
        match outcome {
            ItemProcessingOutcome::Success => ItemProcessingCounts {
                successful_count: 1,
                failed_count: 0,
            },
            ItemProcessingOutcome::Failure => ItemProcessingCounts {
                successful_count: 0,
                failed_count: 1,
            },
        }
    }

    fn combine(self, other: Self) -> (res: Self)
        requires
            self.successful_count + other.successful_count <= usize::MAX,
            self.failed_count + other.failed_count <= usize::MAX,
        ensures
            res.successful_count == self.successful_count + other.successful_count,
            res.failed_count == self.failed_count + other.failed_count,
    {
        ItemProcessingCounts {
            successful_count: self.successful_count + other.successful_count,
            failed_count: self.failed_count + other.failed_count,
        }
    }
}

/// Summarizes the outcomes of a batch, one outcome per input file.
pub fn summarize_outcomes(outcomes: &[ItemProcessingOutcome]) -> (res: ProcessSummary)
    ensures
        res.total_input == outcomes@.len(),
        res.successful_count == count_outcome(outcomes@, ItemProcessingOutcome::Success),
        res.failed_count == count_outcome(outcomes@, ItemProcessingOutcome::Failure),
        res.successful_count + res.failed_count == res.total_input,
{
    let mut counts = ItemProcessingCounts::zero();
    let mut i: usize = 0;
    while i < outcomes.len()
        invariant
            i <= outcomes@.len(),
            counts.successful_count == count_outcome(
                outcomes@.take(i as int),
                ItemProcessingOutcome::Success,
            ),
            counts.failed_count == count_outcome(outcomes@.take(i as int), ItemProcessingOutcome::Failure),
            counts.successful_count + counts.failed_count == i,
        decreases outcomes@.len() - i,
    {
        proof {
            assert(outcomes@.take(i + 1).drop_last() =~= outcomes@.take(i as int));
        }
        counts = counts.combine(ItemProcessingCounts::from_outcome(outcomes[i]));
        i = i + 1;
    }
    assert(outcomes@.take(outcomes@.len() as int) =~= outcomes@);
    ProcessSummary {
        total_input: outcomes.len(),
        successful_count: counts.successful_count,
        failed_count: counts.failed_count,
    }
}

} // verus!
