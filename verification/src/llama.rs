//! The decisions around llama.cpp inference: thread count, request checks and the reuse of
//! cached token prefixes between the two sequences.
use vstd::prelude::*;

verus! {

/// Most tokens one inference accepts.
pub const CONTEXT_TOKEN_LIMIT: usize = 512;

/// What went wrong in an inference.
#[derive(Clone, Debug, Eq, PartialEq)]
pub enum LlamaError {
    InvalidPath,
    Load(String),
    InputTooLong(usize),
    InvalidLogitsRange { start_index: usize, token_count: usize },
    Tokenization,
    TokenPiece(i32),
    Decode(i32),
}

/// The two inference sequences kept in the model's cache.
#[derive(Clone, Copy, Debug, Eq, PartialEq)]
pub enum LlamaSequence {
    Evaluation,
    InputPrediction,
}

pub open spec fn sequence_index(s: LlamaSequence) -> int {
    match s {
        LlamaSequence::Evaluation => 0,
        LlamaSequence::InputPrediction => 1,
    }
}

impl LlamaSequence {
    /// The cache slot of the sequence.
    pub fn index(self) -> (i: usize)
        ensures
            i == match self {
                LlamaSequence::Evaluation => 0usize,
                LlamaSequence::InputPrediction => 1usize,
            },
    {
        match self {
            LlamaSequence::Evaluation => 0,
            LlamaSequence::InputPrediction => 1,
        }
    }
}

/// Which cached sequence to copy a prefix from (or `-1` for the sequence itself) and how
/// many tokens of it to reuse.
#[derive(Clone, Copy, Debug, Eq, PartialEq)]
pub struct SequencePlan {
    pub source_sequence_id: i32,
    pub cached_prefix_count: usize,
}

/// Length of the longest common prefix.
pub open spec fn common_prefix_spec(a: Seq<i32>, b: Seq<i32>) -> int
    decreases a.len(),
{
    if a.len() == 0 || b.len() == 0 || a[0] != b[0] {
        0
    } else {
        1 + common_prefix_spec(a.drop_first(), b.drop_first())
    }
}

proof fn lemma_common_prefix_spec(a: Seq<i32>, b: Seq<i32>, k: int)
    requires
        0 <= k <= a.len(),
        k <= b.len(),
        forall|i: int| 0 <= i < k ==> a[i] == b[i],
        k == a.len() || k == b.len() || a[k] != b[k],
    ensures
        common_prefix_spec(a, b) == k,
    decreases k,
{
    if k > 0 {
        assert forall|i: int| 0 <= i < k - 1 implies a.drop_first()[i] == b.drop_first()[i] by {
            assert(a[i + 1] == b[i + 1]);
        }
        if k < a.len() && k < b.len() {
            assert(a.drop_first()[k - 1] == a[k] && b.drop_first()[k - 1] == b[k]);
        }
        lemma_common_prefix_spec(a.drop_first(), b.drop_first(), k - 1);
    }
}

/// Counts the tokens that two sequences share at their start.
pub fn common_prefix_count(left: &[i32], right: &[i32]) -> (n: usize)
    ensures
        n == common_prefix_spec(left@, right@),
        n <= left@.len() && n <= right@.len(),
{
    let mut i: usize = 0;
    while i < left.len() && i < right.len() && left[i] == right[i]
        invariant
            i <= left@.len(),
            i <= right@.len(),
            forall|j: int| 0 <= j < i ==> left@[j] == right@[j],
        decreases left@.len() - i,
    {
        i = i + 1;
    }
    proof {
        lemma_common_prefix_spec(left@, right@, i as int);
    }
    i
}

pub open spec fn thread_count_spec(available: int) -> int {
    let a: int = if available < 1 {
        1
    } else {
        available
    };
    let reserved: int = if a >= 8 {
        2
    } else if a >= 4 {
        1
    } else {
        0
    };
    let n: int = a - reserved;
    if n < 1 {
        1
    } else if n > 8 {
        8
    } else {
        n
    }
}

/// The threads to infer with: leave one core (four or more) or two (eight or more) for
/// interactive work, and use between one and eight.
pub fn inference_thread_count(available: usize) -> (n: usize)
    ensures
        n == thread_count_spec(available as int),
        1 <= n <= 8,
{
    let available = if available < 1 {
        1
    } else {
        available
    };
    let reserved: usize = if available >= 8 {
        2
    } else if available >= 4 {
        1
    } else {
        0
    };
    let n = available - reserved;
    if n < 1 {
        1
    } else if n > 8 {
        8
    } else {
        n
    }
}

/// The number of logit rows of a request, or why it cannot be served.
pub open spec fn logits_rows_spec(token_count: int, start_index: int, vocabulary_size: int) -> Result<
    int,
    LlamaError,
> {
    if token_count > 512 {
        Err(LlamaError::InputTooLong(token_count as usize))
    } else if start_index >= token_count {
        Err(
            LlamaError::InvalidLogitsRange {
                start_index: start_index as usize,
                token_count: token_count as usize,
            },
        )
    } else if (token_count - start_index) * vocabulary_size > usize::MAX {
        Err(LlamaError::Decode(-1i32))
    } else {
        Ok((token_count - start_index) * vocabulary_size)
    }
}

/// Checks a logits request: at most 512 tokens, the start inside them, and a logits buffer
/// whose size fits in memory; returns that size.
pub fn logits_size(token_count: usize, start_index: usize, vocabulary_size: usize) -> (r: Result<
    usize,
    LlamaError,
>)
    ensures
        match r {
            Ok(n) => logits_rows_spec(token_count as int, start_index as int, vocabulary_size as int)
                == Ok::<int, LlamaError>(n as int),
            Err(e) => logits_rows_spec(token_count as int, start_index as int, vocabulary_size as int)
                == Err::<int, LlamaError>(e),
        },
{
    if token_count > CONTEXT_TOKEN_LIMIT {
        return Err(LlamaError::InputTooLong(token_count));
    }
    if start_index >= token_count {
        return Err(LlamaError::InvalidLogitsRange { start_index, token_count });
    }
    let rows = token_count - start_index;
    match rows.checked_mul(vocabulary_size) {
        Some(n) => Ok(n),
        None => Err(LlamaError::Decode(-1)),
    }
}

/// The start index of a next-token request: the last token.
pub fn next_logits_start(token_count: usize) -> (r: Result<usize, LlamaError>)
    ensures
        match r {
            Ok(i) => token_count > 0 && i == token_count - 1,
            Err(e) => token_count == 0 && e == (LlamaError::InvalidLogitsRange {
                start_index: 0,
                token_count: 0,
            }),
        },
{
    if token_count == 0 {
        Err(LlamaError::InvalidLogitsRange { start_index: 0, token_count: 0 })
    } else {
        Ok(token_count - 1)
    }
}

pub open spec fn min_int(a: int, b: int) -> int {
    if a <= b {
        a
    } else {
        b
    }
}

/// Where to take the cached prefix for `tokens` on `sequence`: from the other sequence when
/// it shares a longer prefix that is still before `start_index`, else from the sequence
/// itself.
pub open spec fn plan_spec(
    cached: Seq<Seq<i32>>,
    tokens: Seq<i32>,
    start_index: int,
    sequence: int,
) -> (int, int) {
    let current = common_prefix_spec(cached[sequence], tokens);
    let other = 1 - sequence;
    let other_prefix = common_prefix_spec(cached[other], tokens);
    if other_prefix > current && min_int(other_prefix, start_index) > 0 {
        (other, min_int(other_prefix, start_index))
    } else {
        (-1, min_int(current, start_index))
    }
}

/// Plans the reuse of cached prefixes; `cached` holds the tokens last run on each sequence.
pub fn sequence_plan(cached: &[Vec<i32>; 2], tokens: &[i32], start_index: usize, sequence: LlamaSequence) -> (p:
    SequencePlan)
    ensures
        (p.source_sequence_id as int, p.cached_prefix_count as int) == plan_spec(
            cached@.map_values(|v: Vec<i32>| v@),
            tokens@,
            start_index as int,
            sequence_index(sequence),
        ),
{
    let ghost cv = cached@.map_values(|v: Vec<i32>| v@);
    let sequence_index = sequence.index();
    assert(cv[sequence_index as int] == cached@[sequence_index as int]@);
    let current_prefix = common_prefix_count(cached[sequence_index].as_slice(), tokens);
    let other_index = 1 - sequence_index;
    assert(cv[other_index as int] == cached@[other_index as int]@);
    let other_prefix = common_prefix_count(cached[other_index].as_slice(), tokens);
    if other_prefix > current_prefix {
        let copied_prefix = if other_prefix < start_index {
            other_prefix
        } else {
            start_index
        };
        if copied_prefix > 0 {
            return SequencePlan {
                source_sequence_id: other_index as i32,
                cached_prefix_count: copied_prefix,
            };
        }
    }
    SequencePlan {
        source_sequence_id: -1,
        cached_prefix_count: if current_prefix < start_index {
            current_prefix
        } else {
            start_index
        },
    }
}

} // verus!
