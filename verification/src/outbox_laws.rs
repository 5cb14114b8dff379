//! What is done for an event, and what an event carries.

use vstd::prelude::*;
use crate::json::JsonModel;
use crate::outbox::{
    carried_reason, carried_text, catchups, row_for, state_after_failure, steps, verdict, Retry,
    RowModel, Step,
};
use crate::store::DocViewModel;

verus! {

/// A commit is written and indexed, a delete is deleted and taken out of the
/// index, the file first; where there are no files none is touched.
pub proof fn law_events_are_carried_out(mirrored: bool, indexed: bool)
    ensures
        ({
            let c = steps("commit"@, mirrored, indexed);
            &&& c.contains(Step::WriteFile) <==> mirrored
            &&& c.contains(Step::Index) <==> indexed
            &&& !c.contains(Step::DeleteFile) && !c.contains(Step::Unindex)
            &&& mirrored ==> c[0] == Step::WriteFile
        }),
        ({
            let d = steps("delete"@, mirrored, indexed);
            &&& d.contains(Step::DeleteFile) <==> mirrored
            &&& d.contains(Step::Unindex)
            &&& !d.contains(Step::WriteFile) && !d.contains(Step::Index)
            &&& mirrored ==> d[0] == Step::DeleteFile
        }),
{
    reveal_strlit("commit");
    reveal_strlit("delete");
    assert("commit"@[0] != "delete"@[0]);
    let c = steps("commit"@, mirrored, indexed);
    if mirrored {
        assert(c[0] == Step::WriteFile);
    }
    if indexed {
        assert(c[c.len() - 1] == Step::Index);
    }
    let d = steps("delete"@, mirrored, indexed);
    if mirrored {
        assert(d[0] == Step::DeleteFile);
    }
    assert(d[d.len() - 1] == Step::Unindex);
}

/// An event carries the document and the reason that stand in it under their
/// names.
pub proof fn law_events_carry_document_and_reason(event: Seq<char>, payload: JsonModel, t: Seq<char>)
    ensures
        payload.member("markdown"@) == Some(JsonModel::String(t)) ==> carried_text(payload) == t,
        payload.member("reason"@) == Some(JsonModel::String(t)) ==> carried_reason(event, payload)
            == t,
        payload.member("reason"@) is None ==> carried_reason("delete"@, payload)
            == "okf-mcp delete"@ && carried_reason("commit"@, payload) == "okf-mcp commit"@,
{
    reveal_strlit("commit");
    reveal_strlit("delete");
    assert("commit"@[0] != "delete"@[0]);
}

/// An event is tried five times.
pub proof fn law_events_are_given_up_in_the_end(attempts: u64)
    ensures
        attempts < 4 ==> state_after_failure(attempts) == "pending"@,
        attempts >= 4 ==> state_after_failure(attempts) == "failed"@,
{
}

/// A success ends the trying, a stale token is tried again twice, and anything
/// else is given up; to delete what is not there is a success.
pub proof fn law_answers_decide_on_trying(status: u16, attempt: u32, deleting: bool)
    ensures
        200 <= status < 300 ==> verdict(status, attempt, deleting) == Retry::Done,
        status == 404 ==> (verdict(status, attempt, deleting) == Retry::Done <==> deleting),
        status == 409 && attempt < 3 ==> verdict(status, attempt, deleting) == Retry::Again,
        verdict(status, attempt, deleting) == Retry::Again ==> status == 409 && attempt < 3,
        verdict(status, attempt, deleting) == Retry::Done ==> 200 <= status < 300 || (deleting
            && status == 404),
{
}

/// The row that counts for a document: the last of its own.
pub open spec fn counts_for(rows: Seq<RowModel>, id: Seq<char>, k: int) -> bool {
    &&& 0 <= k < rows.len()
    &&& rows[k].concept_id == id
    &&& forall|j: int| k < j < rows.len() ==> (#[trigger] rows[j]).concept_id != id
}

proof fn lemma_counts(rows: Seq<RowModel>, id: Seq<char>, n: int)
    requires
        0 <= n <= rows.len(),
        forall|j: int| n <= j < rows.len() ==> (#[trigger] rows[j]).concept_id != id,
    ensures
        match row_for(rows, id, n) {
            Some(x) => exists|k: int| #[trigger] counts_for(rows, id, k) && rows[k] == x,
            None => forall|k: int| !#[trigger] counts_for(rows, id, k),
        },
    decreases n,
{
    if n > 0 {
        if rows[n - 1].concept_id == id {
            assert(counts_for(rows, id, n - 1));
        } else {
            lemma_counts(rows, id, n - 1);
        }
    }
}

/// The index has a document as it is.
pub open spec fn is_in_line(rows: Seq<RowModel>, d: DocViewModel) -> bool {
    exists|k: int| #[trigger]
        counts_for(rows, d.concept_id, k) && rows[k].content_id == d.content_id && !rows[k].deleted
}

/// The documents to be written again are those that the index does not have as
/// they are; each is written over the row it has, with a higher version.
pub proof fn law_documents_behind_are_written_again(
    docs: Seq<DocViewModel>,
    rows: Seq<RowModel>,
    n: int,
)
    requires
        0 <= n <= docs.len(),
    ensures
        forall|c: int|
            0 <= c < catchups(docs, rows, n).len() ==> {
                let x = #[trigger] catchups(docs, rows, n)[c];
                &&& x.index < n
                &&& !is_in_line(rows, docs[x.index as int])
            },
        forall|i: int|
            0 <= i < n && !is_in_line(rows, #[trigger] docs[i]) ==> exists|c: int|
                0 <= c < catchups(docs, rows, n).len() && (#[trigger] catchups(
                    docs,
                    rows,
                    n,
                )[c]).index == i,
        forall|c: int, k: int|
            0 <= c < catchups(docs, rows, n).len() && #[trigger] counts_for(
                rows,
                docs[(#[trigger] catchups(docs, rows, n)[c]).index as int].concept_id,
                k,
            ) ==> {
                let x = catchups(docs, rows, n)[c];
                &&& x.base == Some(rows[k].content_id)
                &&& 0 <= rows[k].version < i64::MAX ==> x.version > rows[k].version
            },
    decreases n,
{
    if n > 0 {
        law_documents_behind_are_written_again(docs, rows, n - 1);
        let d = docs[n - 1];
        let before = catchups(docs, rows, n - 1);
        let all = catchups(docs, rows, n);
        lemma_counts(rows, d.concept_id, rows.len() as int);
        assert forall|k: int, j: int| #[trigger]
            counts_for(rows, d.concept_id, k) && #[trigger] counts_for(
                rows,
                d.concept_id,
                j,
            ) implies k == j by {
            if k < j {
                assert(rows[j].concept_id != d.concept_id);
            }
            if j < k {
                assert(rows[k].concept_id != d.concept_id);
            }
        }
        assert forall|c: int| 0 <= c < before.len() implies #[trigger] all[c] == before[c] by {}
        assert forall|i: int| 0 <= i < n && !is_in_line(rows, #[trigger] docs[i]) implies exists|
            c: int,
        |
            0 <= c < all.len() && (#[trigger] all[c]).index == i by {
            if i < n - 1 {
                let c = choose|c: int| 0 <= c < before.len() && (#[trigger] before[c]).index == i;
                assert(all[c].index == i);
            } else {
                assert(all[all.len() - 1].index == i);
            }
        }
        assert forall|c: int| 0 <= c < all.len() implies ({
            let x = #[trigger] all[c];
            &&& x.index < n
            &&& !is_in_line(rows, docs[x.index as int])
        }) by {
            if c < before.len() {
                assert(all[c] == before[c]);
            }
        }
        assert forall|c: int, k: int|
            0 <= c < all.len() && #[trigger] counts_for(
                rows,
                docs[(#[trigger] all[c]).index as int].concept_id,
                k,
            ) implies ({
            let x = all[c];
            &&& x.base == Some(rows[k].content_id)
            &&& 0 <= rows[k].version < i64::MAX ==> x.version > rows[k].version
        }) by {
            if c < before.len() {
                assert(all[c] == before[c]);
                assert(counts_for(rows, docs[before[c].index as int].concept_id, k));
            }
        }
    }
}

} // verus!
