//! What a directory listing contributes to a merge: which entries are PDF
//! files, and in which order they are taken in.

use vstd::prelude::*;
use vstd::string::StringExecFns;
use crate::error::MergeError;
use crate::ordering::{in_key_order, lemma_key_order_sorts, sort_by_key, SortKey};

verus! {

/// One entry of a directory listing.
#[derive(Debug, PartialEq, Eq)]
pub struct DirectoryEntry {
    /// The file name, without the directory.
    pub name: Vec<u8>,
    /// When the file was last modified, in nanoseconds since the Unix
    /// epoch; negative for a time before it.
    pub modified: i128,
}

/// The bytes of `.pdf`.
pub open spec fn pdf_suffix() -> Seq<u8> {
    seq![46u8, 112u8, 100u8, 102u8]
}

/// Whether a file name has the extension `pdf`, spelled so: it ends in
/// `.pdf` and something stands before that dot.
pub open spec fn is_pdf_name(name: Seq<u8>) -> bool {
    name.len() > 4 && name.subrange(name.len() - 4, name.len() as int) == pdf_suffix()
}

/// The candidates among the entries, each as its modification time and its
/// place in the listing, in the order of the listing.
pub open spec fn candidates(entries: Seq<DirectoryEntry>) -> Seq<(i128, usize)>
    decreases entries.len(),
{
    if entries.len() == 0 {
        Seq::empty()
    } else if is_pdf_name(entries.last().name@) {
        candidates(entries.drop_last()).push(
            (entries.last().modified, (entries.len() - 1) as usize),
        )
    } else {
        candidates(entries.drop_last())
    }
}

/// The places of the items, in their order.
pub open spec fn places(items: Seq<(i128, usize)>) -> Seq<usize> {
    Seq::new(items.len(), |i: int| items[i].1)
}

/// The places in the listing of the files to merge, in the order in which
/// they are taken in: ascending by modification time, files of equal time
/// in the order of the listing.
pub open spec fn ingestion_places(entries: Seq<DirectoryEntry>) -> Seq<usize> {
    places(in_key_order(candidates(entries)))
}

/// Every candidate is a place of the listing at which a PDF name stands,
/// and there are at most as many as entries.
pub proof fn lemma_candidates_are_places(entries: Seq<DirectoryEntry>)
    requires
        entries.len() <= usize::MAX,
    ensures
        candidates(entries).len() <= entries.len(),
        forall|i: int|
            0 <= i < candidates(entries).len() ==> {
                let place = (#[trigger] candidates(entries)[i]).1;
                &&& 0 <= place < entries.len()
                &&& is_pdf_name(entries[place as int].name@)
                &&& candidates(entries)[i].0 == entries[place as int].modified
            },
    decreases entries.len(),
{
    if entries.len() > 0 {
        let front = entries.drop_last();
        lemma_candidates_are_places(front);
        assert forall|i: int| 0 <= i < candidates(entries).len() implies {
            let place = (#[trigger] candidates(entries)[i]).1;
            &&& 0 <= place < entries.len()
            &&& is_pdf_name(entries[place as int].name@)
            &&& candidates(entries)[i].0 == entries[place as int].modified
        } by {
            if i < candidates(front).len() {
                let place = candidates(front)[i].1;
                assert(candidates(entries)[i] == candidates(front)[i]);
                assert(entries[place as int] == front[place as int]);
            }
        }
    }
}

/// The order of ingestion takes in every candidate once, each a file with
/// the PDF extension, and never a file before one that was modified
/// earlier.
pub proof fn lemma_ingestion_ascends(entries: Seq<DirectoryEntry>)
    requires
        entries.len() <= usize::MAX,
    ensures
        ingestion_places(entries).len() == candidates(entries).len(),
        in_key_order(candidates(entries)).to_multiset() == candidates(entries).to_multiset(),
        forall|i: int|
            0 <= i < ingestion_places(entries).len() ==> {
                let place = #[trigger] ingestion_places(entries)[i];
                0 <= place < entries.len() && is_pdf_name(entries[place as int].name@)
            },
        forall|i: int, j: int|
            0 <= i < j < ingestion_places(entries).len() ==> entries[(
            #[trigger] ingestion_places(entries)[i]) as int].modified <= entries[(
            #[trigger] ingestion_places(entries)[j]) as int].modified,
{
    broadcast use vstd::seq_lib::group_to_multiset_ensures;

    let found = candidates(entries);
    let ordered = in_key_order(found);
    lemma_key_order_sorts(found);
    lemma_candidates_are_places(entries);
    assert forall|i: int| 0 <= i < ordered.len() implies {
        let place = (#[trigger] ordered[i]).1;
        &&& 0 <= place < entries.len()
        &&& is_pdf_name(entries[place as int].name@)
        &&& ordered[i].0 == entries[place as int].modified
    } by {
        assert(ordered.to_multiset().count(ordered[i]) > 0);
        assert(found.to_multiset().count(ordered[i]) > 0);
        assert(found.contains(ordered[i]));
        let w = choose|w: int| 0 <= w < found.len() && found[w] == ordered[i];
        assert(found[w].1 == ordered[i].1);
    }
    assert forall|i: int, j: int| 0 <= i < j < ingestion_places(entries).len() implies entries[(
    #[trigger] ingestion_places(entries)[i]) as int].modified <= entries[(
    #[trigger] ingestion_places(entries)[j]) as int].modified by {
        assert(ordered[i].0.rank() <= ordered[j].0.rank());
    }
}

/// Whether a file name has the extension `pdf`.
pub fn has_pdf_extension(name: &[u8]) -> (pdf: bool)
    ensures
        pdf == is_pdf_name(name@),
{
    let n: usize = name.len();
    if n <= 4 {
        return false;
    }
    let pdf = name[n - 4] == 46u8 && name[n - 3] == 112u8 && name[n - 2] == 100u8 && name[n - 1]
        == 102u8;
    proof {
        let tail = name@.subrange(n - 4, n as int);
        if pdf {
            assert(tail =~= pdf_suffix());
        } else {
            assert(tail[0] == name@[n - 4]);
            assert(tail[1] == name@[n - 3]);
            assert(tail[2] == name@[n - 2]);
            assert(tail[3] == name@[n - 1]);
        }
    }
    pdf
}

/// Picks the candidates out of a listing.
fn collect_candidates(entries: &Vec<DirectoryEntry>) -> (found: Vec<(i128, usize)>)
    ensures
        found@ == candidates(entries@),
{
    let n: usize = entries.len();
    let mut found: Vec<(i128, usize)> = Vec::new();
    let mut i: usize = 0;
    assert(entries@.take(0) =~= Seq::<DirectoryEntry>::empty());
    while i < n
        invariant
            n == entries.len(),
            i <= n,
            found@ == candidates(entries@.take(i as int)),
        decreases n - i,
    {
        proof {
            assert(entries@.take(i as int + 1).drop_last() =~= entries@.take(i as int));
        }
        if has_pdf_extension(entries[i].name.as_slice()) {
            found.push((entries[i].modified, i));
        }
        i = i + 1;
    }
    assert(entries@.take(n as int) =~= entries@);
    found
}

/// The number of files with the PDF extension in a listing.
pub fn count_candidates(entries: &Vec<DirectoryEntry>) -> (count: usize)
    ensures
        count == candidates(entries@).len(),
{
    collect_candidates(entries).len()
}

/// The files to merge, as their places in the listing and in the order in
/// which they are taken in; `NoCandidateFiles` where the listing holds no
/// file with the PDF extension.
pub fn ingestion_order(entries: &Vec<DirectoryEntry>) -> (order: Result<Vec<usize>, MergeError>)
    ensures
        match order {
            Ok(places) => candidates(entries@).len() > 0 && places@ == ingestion_places(
                entries@,
            ),
            Err(error) => candidates(entries@).len() == 0 && error is NoCandidateFiles,
        },
{
    let found = collect_candidates(entries);
    if found.len() == 0 {
        return Err(MergeError::NoCandidateFiles);
    }
    let ordered = sort_by_key(&found);
    let n: usize = ordered.len();
    let mut order: Vec<usize> = Vec::with_capacity(n);
    let mut i: usize = 0;
    while i < n
        invariant
            n == ordered.len(),
            i <= n,
            order.len() == i,
            forall|j: int| 0 <= j < i ==> order@[j] == ordered@[j].1,
        decreases n - i,
    {
        order.push(ordered[i].1);
        i = i + 1;
    }
    assert(order@ =~= places(ordered@));
    Ok(order)
}

/// The merged file's name: the directory's name with `.pdf` behind it.
pub fn output_file_name(directory_name: &str) -> (name: String)
    ensures
        name@ == directory_name@ + ".pdf"@,
{
    String::from_str(directory_name).concat(".pdf")
}

} // verus!
