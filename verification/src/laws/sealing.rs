//! What holds of the answers that a submission applies.
use crate::flow::{chunk_runs, consistent, consistent_answers, consistent_test, seal_batch};
use crate::types::SealAnswer;
use vstd::prelude::*;

verus! {

/// The runs that a list of answers is cut into hold the answers of the
/// list, each once and in order, and no run is empty.
pub proof fn lemma_chunk_runs(answers: Seq<SealAnswer>)
    ensures
        chunk_runs(answers).flatten() == answers,
        forall|g: int| 0 <= g < chunk_runs(answers).len() ==> (#[trigger] chunk_runs(answers)[g]).len() > 0,
        answers.len() > 0 ==> chunk_runs(answers).len() > 0 && chunk_runs(answers).last().last() == answers.last(),
    decreases answers.len(),
{
    let runs = chunk_runs(answers);
    if answers.len() == 0 {
        assert(runs.flatten() =~= answers);
    } else {
        let head = answers.drop_last();
        let answer = answers.last();
        let before = chunk_runs(head);
        lemma_chunk_runs(head);
        if before.len() > 0 && before.last().len() > 0 && seal_batch(
            before.last().last().seal_index,
        ) == seal_batch(answer.seal_index) {
            let front = before.drop_last();
            let last = before.last();
            assert(front.push(last) =~= before);
            front.lemma_flatten_push(last);
            front.lemma_flatten_push(last.push(answer));
            assert(before.flatten() == front.flatten() + last);
            assert(runs == front.push(last.push(answer)));
            assert(runs.flatten() == front.flatten() + last.push(answer));
            assert(front.flatten() + last.push(answer) =~= (front.flatten() + last).push(answer));
            assert(head.push(answer) =~= answers);
            assert(runs.flatten() =~= answers);
            assert forall|g: int| 0 <= g < runs.len() implies (#[trigger] runs[g]).len() > 0 by {
                if g < front.len() {
                    assert(runs[g] == before[g]);
                }
            }
        } else {
            before.lemma_flatten_push(seq![answer]);
            assert(before.flatten() + seq![answer] =~= head.push(answer));
            assert(head.push(answer) =~= answers);
            assert(runs.flatten() =~= answers);
            assert forall|g: int| 0 <= g < runs.len() implies (#[trigger] runs[g]).len() > 0 by {
                if g < before.len() {
                    assert(runs[g] == before[g]);
                }
            }
        }
    }
}

/// Neighbouring runs lie in different batches, and the answers of one run
/// lie in one batch: the runs are as long as they can be.
pub proof fn lemma_chunk_runs_are_runs(answers: Seq<SealAnswer>)
    ensures
        forall|g: int, i: int|
            0 <= g < chunk_runs(answers).len() && 0 <= i < chunk_runs(answers)[g].len()
                ==> seal_batch((#[trigger] chunk_runs(answers)[g][i]).seal_index) == seal_batch(
                chunk_runs(answers)[g][0].seal_index,
            ),
        forall|g: int|
            0 <= g < chunk_runs(answers).len() - 1 ==> seal_batch(
                (#[trigger] chunk_runs(answers)[g]).last().seal_index,
            ) != seal_batch(chunk_runs(answers)[g + 1][0].seal_index),
    decreases answers.len(),
{
    let runs = chunk_runs(answers);
    if answers.len() > 0 {
        let head = answers.drop_last();
        let answer = answers.last();
        let before = chunk_runs(head);
        lemma_chunk_runs_are_runs(head);
        lemma_chunk_runs(head);
        let extended = before.len() > 0 && before.last().len() > 0 && seal_batch(
            before.last().last().seal_index,
        ) == seal_batch(answer.seal_index);
        assert forall|g: int, i: int| 0 <= g < runs.len() && 0 <= i < runs[g].len() implies seal_batch(
            (#[trigger] runs[g][i]).seal_index,
        ) == seal_batch(runs[g][0].seal_index) by {
            if g < runs.len() - 1 {
                assert(runs[g] == before[g]);
            } else if extended {
                let last = before[before.len() - 1];
                assert(runs[g] == last.push(answer));
                if i < last.len() {
                    assert(runs[g][i] == last[i]);
                } else {
                    assert(seal_batch(last[last.len() - 1].seal_index) == seal_batch(
                        last[0].seal_index,
                    ));
                }
            }
        }
        assert forall|g: int| 0 <= g < runs.len() - 1 implies seal_batch(
            (#[trigger] runs[g]).last().seal_index,
        ) != seal_batch(runs[g + 1][0].seal_index) by {
            if extended {
                assert(runs[g] == before[g]);
                if g + 1 < runs.len() - 1 {
                    assert(runs[g + 1] == before[g + 1]);
                } else {
                    assert(runs[g + 1][0] == before[g + 1][0]);
                }
            } else {
                assert(runs[g] == before[g]);
                if g + 1 < runs.len() - 1 {
                    assert(runs[g + 1] == before[g + 1]);
                } else {
                    assert(before[g].len() > 0);
                    assert(before[g] == before.last());
                }
            }
        }
    }
}

/// Version isolation: the answers that a submission applies are those of
/// the answers handed in whose seal unit is pending in the very generation
/// that the answer names, each once and in the order they came.
pub proof fn lemma_applied_answers_are_current(pending: Map<u64, u64>, answers: Seq<SealAnswer>)
    ensures
        chunk_runs(consistent_answers(pending, answers)).flatten() == consistent_answers(
            pending,
            answers,
        ),
        forall|j: int|
            0 <= j < consistent_answers(pending, answers).len() ==> pending.contains_key(
                (#[trigger] consistent_answers(pending, answers)[j]).seal_index,
            ) && pending[consistent_answers(pending, answers)[j].seal_index]
                == consistent_answers(pending, answers)[j].version,
{
    let kept = consistent_answers(pending, answers);
    lemma_chunk_runs(kept);
    assert forall|j: int| 0 <= j < kept.len() implies consistent(pending, #[trigger] kept[j]) by {
        answers.lemma_filter_pred(consistent_test(pending), j);
    }
}

} // verus!
