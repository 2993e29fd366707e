//! Record-by-record comparison of two decoded files.
use vstd::prelude::*;
use crate::models::{InputFormat, Record, RecordView, records_view};

verus! {

/// Whether `i` is the first index at which `a` and `b` differ: both hold
/// equal records before it, and at `i` the records differ or one sequence
/// has ended.
pub open spec fn is_first_mismatch(a: Seq<RecordView>, b: Seq<RecordView>, i: int) -> bool {
    &&& 0 <= i
    &&& (i < a.len() || i < b.len())
    &&& forall|j: int| 0 <= j < i ==> j < a.len() && j < b.len() && a[j] == b[j]
    &&& (i < a.len() && i < b.len() ==> a[i] != b[i])
}

/// The index of the first record at which `a` and `b` differ; `None` when
/// they are equal, in length and record for record.
pub fn first_mismatch(a: &Vec<Record>, b: &Vec<Record>) -> (r: Option<usize>)
    ensures
        match r {
            None => records_view(a@) == records_view(b@),
            Some(i) => is_first_mismatch(records_view(a@), records_view(b@), i as int),
        },
{
    let ghost va = records_view(a@);
    let ghost vb = records_view(b@);
    let n = if a.len() < b.len() {
        a.len()
    } else {
        b.len()
    };
    let mut i: usize = 0;
    while i < n
        invariant
            n <= a@.len(),
            n <= b@.len(),
            n == a@.len() || n == b@.len(),
            i <= n,
            va == records_view(a@),
            vb == records_view(b@),
            forall|j: int| 0 <= j < i ==> va[j] == vb[j],
        decreases n - i,
    {
        if a[i] != b[i] {
            return Some(i);
        }
        i = i + 1;
    }
    if a.len() == b.len() {
        proof {
            assert(va =~= vb);
        }
        None
    } else {
        Some(n)
    }
}

/// The first record that differs between two decoded files: the first
/// file's record at the first mismatching index, or the second file's
/// where the first has ended there. `None` when the files hold the same
/// records.
pub fn check_file(file_one: InputFormat, file_two: InputFormat) -> (r: Option<Record>)
    ensures
        r is None <==> file_one.records() == file_two.records(),
        r matches Some(rec) ==> exists|i: int|
            is_first_mismatch(file_one.records(), file_two.records(), i) && rec@ == (if i
                < file_one.records().len() {
                file_one.records()[i]
            } else {
                file_two.records()[i]
            }),
{
    let one = file_one.get_record();
    let two = file_two.get_record();
    match first_mismatch(&one, &two) {
        None => None,
        Some(i) => {
            proof {
                let (a, b) = (records_view(one@), records_view(two@));
                if a == b {
                    assert(i < a.len() && a[i as int] != b[i as int]);
                }
            }
            if i < one.len() {
                Some(one[i].duplicate())
            } else {
                Some(two[i].duplicate())
            }
        },
    }
}

} // verus!
