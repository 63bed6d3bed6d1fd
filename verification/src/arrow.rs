//! Integer input gathered from Arrow arrays: the non-empty chunks of one integer
//! type, read as one logical column through the start offset of each chunk.

use vstd::prelude::*;
use crate::dtype::DTypeKind;
use crate::keys::{KeyArray, KeyDataType};

verus! {

/// The values of each chunk of `v`.
pub open spec fn seqs_of(v: Seq<Vec<i128>>) -> Seq<Seq<i128>> {
    v.map_values(|c: Vec<i128>| c@)
}

/// Errors of gathering Arrow input.
#[derive(Clone, Debug, PartialEq, Eq)]
pub enum ArrowError {
    /// A single array with null slots.
    Nulls,
    /// A chunk, at the given position, with null slots.
    ChunkNulls { chunk: usize },
    /// An array of a type that is no fixed-width integer type, by name.
    UnsupportedType(String),
    /// A chunk whose integer type differs from the stream's.
    MixedDtypes { expected: DTypeKind, found: DTypeKind },
    /// An array that is not of the requested integer type.
    TypeConversion,
    /// A stream longer than a `usize` can count.
    LengthOverflow,
}

/// The total length of the chunks `cs`.
pub open spec fn total_len(cs: Seq<Seq<i128>>) -> nat
    decreases cs.len(),
{
    if cs.len() == 0 {
        0
    } else {
        total_len(cs.drop_last()) + cs.last().len()
    }
}

/// The chunks `cs` one after the other.
pub open spec fn flat(cs: Seq<Seq<i128>>) -> Seq<i128>
    decreases cs.len(),
{
    if cs.len() == 0 {
        Seq::empty()
    } else {
        flat(cs.drop_last()) + cs.last()
    }
}

/// The error that chunk `c`, at position `idx`, raises in a stream of type `dtype`.
pub open spec fn chunk_error(c: KeyArray, idx: int, dtype: DTypeKind) -> Option<ArrowError> {
    if c.null_count > 0 {
        Some(ArrowError::ChunkNulls { chunk: idx as usize })
    } else {
        match c.data_type {
            KeyDataType::Unsupported(name) => Some(ArrowError::UnsupportedType(name)),
            KeyDataType::Integer(t) => if t != dtype {
                Some(ArrowError::MixedDtypes { expected: dtype, found: t })
            } else {
                None
            },
        }
    }
}

/// What gathering the chunks `cs` as a stream of type `dtype` gives: all their
/// values in order, or the error of the first chunk that raises one.
pub open spec fn chunked_outcome(cs: Seq<KeyArray>, dtype: DTypeKind) -> Result<
    Seq<i128>,
    ArrowError,
>
    decreases cs.len(),
{
    if cs.len() == 0 {
        Ok(Seq::empty())
    } else {
        match chunked_outcome(cs.drop_last(), dtype) {
            Err(e) => Err(e),
            Ok(vals) => match chunk_error(cs.last(), cs.len() - 1, dtype) {
                Some(e) => Err(e),
                None => if vals.len() + cs.last().values@.len() > usize::MAX {
                    Err(ArrowError::LengthOverflow)
                } else {
                    Ok(vals + cs.last().values@)
                },
            },
        }
    }
}

/// What gathering the single array `a` as type `dtype` gives.
pub open spec fn single_outcome(a: KeyArray, dtype: DTypeKind) -> Result<Seq<i128>, ArrowError> {
    if a.null_count > 0 {
        Err(ArrowError::Nulls)
    } else if a.data_type matches KeyDataType::Integer(t) && t == dtype {
        Ok(a.values@)
    } else {
        Err(ArrowError::TypeConversion)
    }
}

proof fn lemma_flat_len(cs: Seq<Seq<i128>>)
    ensures
        flat(cs).len() == total_len(cs),
    decreases cs.len(),
{
    if cs.len() > 0 {
        lemma_flat_len(cs.drop_last());
    }
}

proof fn lemma_total_mono(cs: Seq<Seq<i128>>, a: int, b: int)
    requires
        0 <= a <= b <= cs.len(),
    ensures
        total_len(cs.take(a)) <= total_len(cs.take(b)),
    decreases b - a,
{
    if a < b {
        assert(cs.take(b).drop_last() =~= cs.take(b - 1));
        lemma_total_mono(cs, a, b - 1);
    }
}

proof fn lemma_flat_index(cs: Seq<Seq<i128>>, k: int, o: int)
    requires
        0 <= k < cs.len(),
        0 <= o < cs[k].len(),
    ensures
        total_len(cs.take(k)) + o < total_len(cs),
        flat(cs)[total_len(cs.take(k)) + o] == cs[k][o],
    decreases cs.len(),
{
    let init = cs.drop_last();
    lemma_flat_len(init);
    assert(cs.take(cs.len() as int) =~= cs);
    if k == cs.len() - 1 {
        assert(cs.take(k) =~= init);
    } else {
        lemma_flat_index(init, k, o);
        assert(init.take(k) =~= cs.take(k));
    }
}

proof fn lemma_outcome_err_prefix(cs: Seq<KeyArray>, dtype: DTypeKind, m: int)
    requires
        0 <= m <= cs.len(),
        chunked_outcome(cs.take(m), dtype) is Err,
    ensures
        chunked_outcome(cs, dtype) == chunked_outcome(cs.take(m), dtype),
    decreases cs.len(),
{
    if m == cs.len() {
        assert(cs.take(m) =~= cs);
    } else {
        assert(cs.drop_last().take(m) =~= cs.take(m));
        lemma_outcome_err_prefix(cs.drop_last(), dtype, m);
    }
}

/// Gathered Arrow input: the non-empty chunks of one integer type and the offset at
/// which each starts in the logical column of `len` values.
pub struct ArrowInput {
    dtype: DTypeKind,
    chunks: Vec<Vec<i128>>,
    chunk_starts: Vec<usize>,
    len: usize,
}

impl ArrowInput {
    /// The chunks, as sequences of values.
    pub closed spec fn chunk_seqs(self) -> Seq<Seq<i128>> {
        seqs_of(self.chunks@)
    }

    #[verifier::type_invariant]
    spec fn inv(self) -> bool {
        let cs = self.chunk_seqs();
        &&& self.chunk_starts@.len() == cs.len()
        &&& forall|k: int| 0 <= k < cs.len() ==> #[trigger] cs[k].len() > 0
        &&& forall|k: int|
            0 <= k < cs.len() ==> #[trigger] self.chunk_starts@[k] == total_len(cs.take(k))
        &&& self.len == total_len(cs)
    }

    /// The integer type of the input.
    pub closed spec fn spec_dtype(self) -> DTypeKind {
        self.dtype
    }
}

impl View for ArrowInput {
    type V = Seq<i128>;

    /// The logical column: the chunks one after the other.
    closed spec fn view(&self) -> Seq<i128> {
        flat(self.chunk_seqs())
    }
}

/// The number of leading offsets of the ascending `starts` that are at most `index`.
fn count_at_most(starts: &Vec<usize>, index: usize) -> (r: usize)
    requires
        forall|i: int, j: int| 0 <= i <= j < starts@.len() ==> starts@[i] <= starts@[j],
    ensures
        r <= starts@.len(),
        forall|j: int| 0 <= j < r ==> starts@[j] <= index,
        forall|j: int| r <= j < starts@.len() ==> starts@[j] > index,
{
    let mut lo: usize = 0;
    let mut hi: usize = starts.len();
    while lo < hi
        invariant
            lo <= hi <= starts@.len(),
            forall|i: int, j: int| 0 <= i <= j < starts@.len() ==> starts@[i] <= starts@[j],
            forall|j: int| 0 <= j < lo ==> starts@[j] <= index,
            forall|j: int| hi <= j < starts@.len() ==> starts@[j] > index,
        decreases hi - lo,
    {
        let mid = lo + (hi - lo) / 2;
        if starts[mid] <= index {
            lo = mid + 1;
        } else {
            hi = mid;
        }
    }
    lo
}

impl ArrowInput {
    /// Gather one array as input of type `dtype`: it must have no nulls and be of
    /// that type.
    pub fn from_single_array(array: &KeyArray, dtype: DTypeKind) -> (r: Result<Self, ArrowError>)
        ensures
            r matches Ok(input) ==> single_outcome(*array, dtype) == Ok::<Seq<i128>, ArrowError>(
                input@,
            ) && input.spec_dtype() == dtype,
            r matches Err(e) ==> single_outcome(*array, dtype) == Err::<Seq<i128>, ArrowError>(e),
    {
        if array.null_count > 0 {
            return Err(ArrowError::Nulls);
        }
        let matches_type = match &array.data_type {
            KeyDataType::Integer(t) => *t == dtype,
            KeyDataType::Unsupported(_) => false,
        };
        if !matches_type {
            return Err(ArrowError::TypeConversion);
        }
        let values = crate::dsu::copy_keys(&array.values);
        let len = values.len();
        let mut chunks: Vec<Vec<i128>> = Vec::new();
        let mut starts: Vec<usize> = Vec::new();
        if len > 0 {
            chunks.push(values);
            starts.push(0);
        }
        proof {
            let cs = seqs_of(chunks@);
            if len > 0 {
                let none = Seq::<Seq<i128>>::empty();
                assert(flat(none) == Seq::<i128>::empty() && total_len(none) == 0);
                assert(cs.drop_last() =~= none);
                assert(cs.take(0) =~= none);
                assert(cs[0] == array.values@);
                assert(flat(cs) =~= array.values@);
            } else {
                assert(cs =~= Seq::<Seq<i128>>::empty());
                assert(flat(cs) =~= array.values@);
            }
        }
        Ok(ArrowInput { dtype, chunks, chunk_starts: starts, len })
    }

    /// Gather the chunks of a stream of type `dtype`, in order: each must have no
    /// nulls and be of that type; empty chunks are left out.
    pub fn from_chunked_arrays(chunks: &[KeyArray], dtype: DTypeKind) -> (r: Result<Self, ArrowError>)
        ensures
            r matches Ok(input) ==> chunked_outcome(chunks@, dtype) == Ok::<Seq<i128>, ArrowError>(
                input@,
            ) && input.spec_dtype() == dtype,
            r matches Err(e) ==> chunked_outcome(chunks@, dtype) == Err::<Seq<i128>, ArrowError>(e),
    {
        let mut typed: Vec<Vec<i128>> = Vec::new();
        let mut starts: Vec<usize> = Vec::new();
        let mut len: usize = 0;
        let mut idx: usize = 0;
        while idx < chunks.len()
            invariant
                idx <= chunks@.len(),
                chunked_outcome(chunks@.take(idx as int), dtype) == Ok::<Seq<i128>, ArrowError>(
                    flat(seqs_of(typed@)),
                ),
                starts@.len() == typed@.len(),
                forall|k: int|
                    0 <= k < typed@.len() ==> #[trigger] seqs_of(typed@)[k].len()
                        > 0,
                forall|k: int|
                    0 <= k < typed@.len() ==> #[trigger] starts@[k] == total_len(
                        seqs_of(typed@).take(k),
                    ),
                len == total_len(seqs_of(typed@)),
            decreases chunks@.len() - idx,
        {
            let ghost cs = seqs_of(typed@);
            let ghost pre = chunks@.take(idx + 1);
            proof {
                assert(pre.drop_last() =~= chunks@.take(idx as int));
                lemma_flat_len(cs);
            }
            let chunk = &chunks[idx];
            if chunk.null_count > 0 {
                proof {
                    lemma_outcome_err_prefix(chunks@, dtype, idx + 1);
                }
                return Err(ArrowError::ChunkNulls { chunk: idx });
            }
            let chunk_dtype = match &chunk.data_type {
                KeyDataType::Integer(t) => *t,
                KeyDataType::Unsupported(name) => {
                    proof {
                    lemma_outcome_err_prefix(chunks@, dtype, idx + 1);
                }
                return Err(ArrowError::UnsupportedType(name.clone()));
                },
            };
            if chunk_dtype != dtype {
                proof {
                    lemma_outcome_err_prefix(chunks@, dtype, idx + 1);
                }
                return Err(ArrowError::MixedDtypes { expected: dtype, found: chunk_dtype });
            }
            let n = chunk.values.len();
            if n == 0 {
                proof {
                    assert(flat(cs) + chunk.values@ =~= flat(cs));
                }
                idx = idx + 1;
                continue;
            }
            let next = match len.checked_add(n) {
                Some(v) => v,
                None => {
                    proof {
                    lemma_outcome_err_prefix(chunks@, dtype, idx + 1);
                }
                return Err(ArrowError::LengthOverflow);
                },
            };
            let values = crate::dsu::copy_keys(&chunk.values);
            starts.push(len);
            typed.push(values);
            len = next;
            proof {
                let cs2 = seqs_of(typed@);
                assert(cs2.drop_last() =~= cs);
                assert forall|k: int| 0 <= k < cs2.len() implies #[trigger] starts@[k] == total_len(
                    cs2.take(k),
                ) by {
                    if k < cs.len() {
                        assert(cs2.take(k) =~= cs.take(k));
                    } else {
                        assert(cs2.take(k) =~= cs);
                    }
                }
                assert forall|k: int| 0 <= k < cs2.len() implies #[trigger] cs2[k].len() > 0 by {
                    if k < cs.len() {
                        assert(cs2[k] == cs[k]);
                    }
                }
            }
            idx = idx + 1;
        }
        proof {
            assert(chunks@.take(idx as int) =~= chunks@);
        }
        Ok(ArrowInput { dtype, chunks: typed, chunk_starts: starts, len })
    }

    /// The integer type of the input.
    pub fn dtype(&self) -> (r: DTypeKind)
        ensures
            r == self.spec_dtype(),
    {
        self.dtype
    }

    /// The number of values.
    pub fn len(&self) -> (r: usize)
        ensures
            r == self@.len(),
    {
        proof {
            use_type_invariant(self);
            lemma_flat_len(self.chunk_seqs());
        }
        self.len
    }

    /// The value at position `index` of the logical column: found in the last chunk
    /// that starts at or before it.
    pub fn read_i128(&self, index: usize) -> (r: i128)
        requires
            index < self@.len(),
        ensures
            r == self@[index as int],
    {
        proof {
            use_type_invariant(self);
            lemma_flat_len(self.chunk_seqs());
        }
        let ghost cs = self.chunk_seqs();
        proof {
            assert forall|i: int, j: int|
                0 <= i <= j < self.chunk_starts@.len() implies self.chunk_starts@[i]
                <= self.chunk_starts@[j] by {
                lemma_total_mono(cs, i, j);
            }
            assert(cs.take(0) =~= Seq::<Seq<i128>>::empty());
        }
        let count = count_at_most(&self.chunk_starts, index);
        let chunk_idx = if count > 0 {
            count - 1
        } else {
            0
        };
        proof {
            let k = chunk_idx as int;
            assert(self.chunk_starts@[0] == 0);
            assert(count > 0);
            if k + 1 < cs.len() {
                assert(cs.take(k + 1).drop_last() =~= cs.take(k));
                assert(self.chunk_starts@[k + 1] == total_len(cs.take(k + 1)));
            } else {
                assert(cs.take(cs.len() as int) =~= cs);
                assert(cs.drop_last() =~= cs.take(k));
            }
        }
        let local = index - self.chunk_starts[chunk_idx];
        proof {
            lemma_flat_index(cs, chunk_idx as int, local as int);
            assert(self.chunks@[chunk_idx as int]@ == cs[chunk_idx as int]);
        }
        self.chunks[chunk_idx][local]
    }
}

/// Gather one array as input of its own integer type; an array of another type is
/// refused by name.
pub fn collect_single_array(array: &KeyArray) -> (r: Result<ArrowInput, ArrowError>)
    ensures
        match array.data_type {
            KeyDataType::Unsupported(name) => r == Err::<ArrowInput, ArrowError>(
                ArrowError::UnsupportedType(name),
            ),
            KeyDataType::Integer(d) => (r matches Ok(input) ==> single_outcome(*array, d) == Ok::<
                Seq<i128>,
                ArrowError,
            >(input@) && input.spec_dtype() == d) && (r matches Err(e) ==> single_outcome(
                *array,
                d,
            ) == Err::<Seq<i128>, ArrowError>(e)),
        },
{
    match &array.data_type {
        KeyDataType::Integer(d) => ArrowInput::from_single_array(array, *d),
        KeyDataType::Unsupported(name) => Err(ArrowError::UnsupportedType(name.clone())),
    }
}

/// Gather the chunks of a stream whose field has type `field_type`, as input of
/// that integer type; a field of another type is refused by name.
pub fn collect_chunked_arrays(field_type: &KeyDataType, chunks: &[KeyArray]) -> (r: Result<
    ArrowInput,
    ArrowError,
>)
    ensures
        match *field_type {
            KeyDataType::Unsupported(name) => r == Err::<ArrowInput, ArrowError>(
                ArrowError::UnsupportedType(name),
            ),
            KeyDataType::Integer(d) => (r matches Ok(input) ==> chunked_outcome(chunks@, d) == Ok::<
                Seq<i128>,
                ArrowError,
            >(input@) && input.spec_dtype() == d) && (r matches Err(e) ==> chunked_outcome(
                chunks@,
                d,
            ) == Err::<Seq<i128>, ArrowError>(e)),
        },
{
    match field_type {
        KeyDataType::Integer(d) => ArrowInput::from_chunked_arrays(chunks, *d),
        KeyDataType::Unsupported(name) => Err(ArrowError::UnsupportedType(name.clone())),
    }
}

} // verus!
