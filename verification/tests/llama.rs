use beankey::{
    LlamaError, LlamaSequence, SequencePlan, common_prefix_count, inference_thread_count,
    logits_size, next_logits_start, sequence_plan,
};

#[test]
fn reserves_capacity_for_interactive_work() {
    assert_eq!(inference_thread_count(1), 1);
    assert_eq!(inference_thread_count(3), 3);
    assert_eq!(inference_thread_count(6), 5);
    assert_eq!(inference_thread_count(8), 6);
    assert_eq!(inference_thread_count(32), 8);
}

#[test]
fn counts_only_the_shared_token_prefix() {
    assert_eq!(common_prefix_count(&[1, 2, 3], &[1, 2, 4]), 2);
    assert_eq!(common_prefix_count(&[1, 2], &[1, 2, 3]), 2);
    assert_eq!(common_prefix_count(&[1], &[2]), 0);
}

#[test]
fn no_available_core_still_gives_one_thread() {
    assert_eq!(inference_thread_count(0), 1);
    assert_eq!(inference_thread_count(4), 3);
}

#[test]
fn logits_requests_are_checked() {
    assert_eq!(logits_size(513, 0, 10), Err(LlamaError::InputTooLong(513)));
    assert_eq!(
        logits_size(3, 3, 10),
        Err(LlamaError::InvalidLogitsRange { start_index: 3, token_count: 3 })
    );
    assert_eq!(logits_size(3, 1, 10), Ok(20));
    assert_eq!(next_logits_start(4), Ok(3));
    assert_eq!(
        next_logits_start(0),
        Err(LlamaError::InvalidLogitsRange { start_index: 0, token_count: 0 })
    );
    assert_eq!(LlamaSequence::InputPrediction.index(), 1);
}

#[test]
fn plans_reuse_the_longer_cached_prefix() {
    let cached = [vec![1, 2, 3, 4], vec![1, 9]];
    assert_eq!(
        sequence_plan(&cached, &[1, 2, 3, 5], 3, LlamaSequence::InputPrediction),
        SequencePlan { source_sequence_id: 0, cached_prefix_count: 3 }
    );
    assert_eq!(
        sequence_plan(&cached, &[1, 2, 3, 5], 2, LlamaSequence::Evaluation),
        SequencePlan { source_sequence_id: -1, cached_prefix_count: 2 }
    );
    assert_eq!(
        sequence_plan(&cached, &[7], 0, LlamaSequence::InputPrediction),
        SequencePlan { source_sequence_id: -1, cached_prefix_count: 0 }
    );
}
