//! The upload plan: the index configuration the importer installs and the
//! bounded batches the documents are sent in.
use vstd::prelude::*;

verus! {

/// How many documents one upload batch holds.
pub const BATCH_SIZE: usize = 1000;

/// Splits `total` items into contiguous half-open ranges of at most
/// `batch_size` items each: the upload order of the document vector.
pub fn batch_bounds(total: usize, batch_size: usize) -> (r: Vec<(usize, usize)>)
    requires
        batch_size > 0,
    ensures
        total == 0 ==> r@.len() == 0,
        total > 0 ==> r@.len() > 0 && r@[0].0 == 0 && r@[r@.len() - 1].1 == total,
        forall|i: int| 0 <= i < r@.len() ==> (#[trigger] r@[i]).0 < r@[i].1 <= total,
        forall|i: int| 0 <= i < r@.len() ==> (#[trigger] r@[i]).1 - r@[i].0 <= batch_size,
        forall|i: int| 0 <= i < r@.len() - 1 ==> (#[trigger] r@[i]).1 == r@[i + 1].0,
{
    let mut r: Vec<(usize, usize)> = Vec::new();
    let mut start: usize = 0;
    while start < total
        invariant
            batch_size > 0,
            start <= total,
            start == 0 ==> r@.len() == 0,
            start > 0 ==> r@.len() > 0 && r@[0].0 == 0 && r@[r@.len() - 1].1 == start,
            forall|i: int| 0 <= i < r@.len() ==> (#[trigger] r@[i]).0 < r@[i].1 <= start,
            forall|i: int| 0 <= i < r@.len() ==> (#[trigger] r@[i]).1 - r@[i].0 <= batch_size,
            forall|i: int| 0 <= i < r@.len() - 1 ==> (#[trigger] r@[i]).1 == r@[i + 1].0,
        decreases total - start,
    {
        let end = if total - start < batch_size {
            total
        } else {
            start + batch_size
        };
        r.push((start, end));
        start = end;
    }
    r
}

/// The attributes the index searches over, in ranking order.
pub fn searchable_attributes() -> (r: Vec<&'static str>)
    ensures
        r@.len() == 5,
        r@[0]@ == "word"@,
        r@[1]@ == "definitions"@,
        r@[2]@ == "synonyms"@,
        r@[3]@ == "antonyms"@,
        r@[4]@ == "examples"@,
{
    let mut r: Vec<&'static str> = Vec::new();
    r.push("word");
    r.push("definitions");
    r.push("synonyms");
    r.push("antonyms");
    r.push("examples");
    r
}

/// The attributes the index can filter on.
pub fn filterable_attributes() -> (r: Vec<&'static str>)
    ensures
        r@.len() == 2,
        r@[0]@ == "word"@,
        r@[1]@ == "pos"@,
{
    let mut r: Vec<&'static str> = Vec::new();
    r.push("word");
    r.push("pos");
    r
}

/// The attributes the index can sort on.
pub fn sortable_attributes() -> (r: Vec<&'static str>)
    ensures
        r@.len() == 1,
        r@[0]@ == "word"@,
{
    let mut r: Vec<&'static str> = Vec::new();
    r.push("word");
    r
}

/// The ranking rules the index applies, in order.
pub fn ranking_rules() -> (r: Vec<&'static str>)
    ensures
        r@.len() == 6,
        r@[0]@ == "words"@,
        r@[1]@ == "typo"@,
        r@[2]@ == "proximity"@,
        r@[3]@ == "attribute"@,
        r@[4]@ == "sort"@,
        r@[5]@ == "exactness"@,
{
    let mut r: Vec<&'static str> = Vec::new();
    r.push("words");
    r.push("typo");
    r.push("proximity");
    r.push("attribute");
    r.push("sort");
    r.push("exactness");
    r
}

/// The primary key every document is addressed by.
pub fn primary_key() -> (r: &'static str)
    ensures
        r@ == "id"@,
{
    "id"
}

} // verus!
