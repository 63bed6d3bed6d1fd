//! One validated one-dimensional column of integers, read either from the bytes of
//! a Python buffer or from gathered Arrow input, with range-checked reads.

use vstd::prelude::*;
use crate::arrow::ArrowInput;
use crate::dtype::{
    buffer_dtype, is_foreign_order, is_single_code, is_sized_code, native_byte_order,
    parse_buffer_dtype, sized_bits, DTypeError, DTypeKind,
};
use crate::encoding::{decode_in, decoded, ByteOrder};
use crate::labels::chunk;

verus! {

/// Errors of buffer input.
#[derive(Clone, Copy, Debug, PartialEq, Eq)]
pub enum BufferError {
    /// A buffer with other than one dimension.
    NotOneDimensional,
    /// A buffer that is not contiguous in C order.
    NotContiguous,
    /// A buffer whose format names no supported integer type.
    Format(DTypeError),
    /// A value outside the range of the type it is read as.
    ValueOutOfRange { value: i128, target: DTypeKind },
}

/// The `n` values of type `d` stored one after the other in `data`, in order
/// `order`.
pub open spec fn stored_values(data: Seq<u8>, n: nat, d: DTypeKind, order: ByteOrder) -> Seq<int> {
    Seq::new(n, |j: int| decoded(chunk(data, j, d.itemsize() as int), d, order))
}

/// The values `vs` as integers.
pub open spec fn as_ints(vs: Seq<i128>) -> Seq<int> {
    vs.map_values(|v: i128| v as int)
}

/// Whether every value of `vs` lies in the range of `d`.
pub open spec fn ints_in_range(vs: Seq<int>, d: DTypeKind) -> bool {
    forall|k: int| 0 <= k < vs.len() ==> d.min_value() <= #[trigger] vs[k] <= d.max_value()
}

/// Where the values of a buffer input live.
enum Storage {
    /// The bytes of a Python buffer, in the byte order of the machine.
    Bytes { data: Vec<u8>, order: ByteOrder },
    /// Gathered Arrow input.
    Arrow(ArrowInput),
}

/// One validated one-dimensional integer column.
pub struct BufferInput {
    storage: Storage,
    dtype: DTypeKind,
    len: usize,
}

impl BufferInput {
    #[verifier::type_invariant]
    spec fn inv(self) -> bool {
        match self.storage {
            Storage::Bytes { data, order } => data@.len() == self.len * self.dtype.itemsize(),
            Storage::Arrow(a) => a@.len() == self.len && a.spec_dtype() == self.dtype,
        }
    }

    /// The integer type of the column.
    pub closed spec fn spec_dtype(self) -> DTypeKind {
        self.dtype
    }

    /// The byte order of buffer storage.
    pub closed spec fn spec_order(self) -> ByteOrder {
        match self.storage {
            Storage::Bytes { data, order } => order,
            Storage::Arrow(_) => ByteOrder::Little,
        }
    }
}

impl View for BufferInput {
    type V = Seq<int>;

    /// The values of the column.
    closed spec fn view(&self) -> Seq<int> {
        match self.storage {
            Storage::Bytes { data, order } => stored_values(data@, self.len as nat, self.dtype, order),
            Storage::Arrow(a) => as_ints(a@),
        }
    }
}

impl BufferInput {
    /// Validate a Python buffer given by its number of dimensions, whether it is
    /// contiguous in C order, its format, its item size and count, and its bytes.
    ///
    /// For the sized format codes `l`, `L`, `n` and `N` the width is the item size,
    /// as a `u8`, times eight, which must not overflow.
    pub fn from_typed_buffer(
        ndim: usize,
        c_contiguous: bool,
        format: &[u8],
        itemsize: usize,
        item_count: usize,
        data: Vec<u8>,
    ) -> (r: Result<Self, BufferError>)
        requires
            is_single_code(format@) && is_sized_code(format@.last()) && !(format@.len() == 2
                && is_foreign_order(format@[0])) ==> sized_bits(itemsize) < 256,
            data@.len() == item_count * itemsize,
        ensures
            ndim != 1 ==> r == Err::<Self, BufferError>(BufferError::NotOneDimensional),
            ndim == 1 && !c_contiguous ==> r == Err::<Self, BufferError>(BufferError::NotContiguous),
            ndim == 1 && c_contiguous ==> match buffer_dtype(format@, itemsize) {
                Err(e) => r == Err::<Self, BufferError>(BufferError::Format(e)),
                Ok(d) => r matches Ok(input) && input.spec_dtype() == d && input@ == stored_values(
                    data@,
                    item_count as nat,
                    d,
                    input.spec_order(),
                ),
            },
    {
        if ndim != 1 {
            return Err(BufferError::NotOneDimensional);
        }
        if !c_contiguous {
            return Err(BufferError::NotContiguous);
        }
        let dtype = match parse_buffer_dtype(format, itemsize) {
            Ok(d) => d,
            Err(e) => {
                return Err(BufferError::Format(e));
            },
        };
        let order = native_byte_order();
        Ok(BufferInput { storage: Storage::Bytes { data, order }, dtype, len: item_count })
    }

    /// A column over gathered Arrow input.
    pub fn from_arrow_input(input: ArrowInput) -> (r: Self)
        ensures
            r@ == as_ints(input@),
            r.spec_dtype() == input.spec_dtype(),
    {
        let len = input.len();
        let dtype = input.dtype();
        BufferInput { storage: Storage::Arrow(input), dtype, len }
    }

    /// The integer type of the column.
    pub fn dtype(&self) -> (r: DTypeKind)
        ensures
            r == self.spec_dtype(),
    {
        self.dtype
    }

    /// The number of values.
    pub fn len(&self) -> (r: usize)
        ensures
            r == self@.len(),
    {
        proof {
            use_type_invariant(self);
        }
        self.len
    }

    /// The value at position `index`, as stored.
    fn read_i128(&self, index: usize) -> (r: i128)
        requires
            index < self@.len(),
        ensures
            r == self@[index as int],
    {
        proof {
            use_type_invariant(self);
        }
        match &self.storage {
            Storage::Bytes { data, order } => {
                let stride = self.dtype.itemsize();
                let total = data.len();
                proof {
                    assert((index + 1) * stride <= self.len * stride) by (nonlinear_arith)
                        requires
                            index < self.len,
                    ;
                    assert((index + 1) * stride == index * stride + stride) by (nonlinear_arith);
                    assert(0 <= index * stride) by (nonlinear_arith);
                }
                let offset = index * stride;
                let bytes = vstd::slice::slice_subrange(data.as_slice(), offset, offset + stride);
                proof {
                    assert(bytes@ =~= chunk(data@, index as int, stride as int));
                }
                decode_in(bytes, self.dtype, *order)
            },
            Storage::Arrow(input) => input.read_i128(index),
        }
    }

    /// The value at position `index`, checked to lie in the range of `target`.
    pub fn read_checked(&self, index: usize, target: DTypeKind) -> (r: Result<i128, BufferError>)
        requires
            index < self@.len(),
        ensures
            target.min_value() <= self@[index as int] <= target.max_value() ==> r == Ok::<
                i128,
                BufferError,
            >(self@[index as int] as i128),
            !(target.min_value() <= self@[index as int] <= target.max_value()) ==> r == Err::<
                i128,
                BufferError,
            >(BufferError::ValueOutOfRange { value: self@[index as int] as i128, target }),
    {
        let value = self.read_i128(index);
        if target.contains(value) {
            Ok(value)
        } else {
            Err(BufferError::ValueOutOfRange { value, target })
        }
    }

    /// Every value, in order, each checked to lie in the range of `target`; the
    /// first that does not is refused.
    pub fn collect_checked(&self, target: DTypeKind) -> (r: Result<Vec<i128>, BufferError>)
        ensures
            r is Ok <==> ints_in_range(self@, target),
            r matches Ok(vs) ==> as_ints(vs@) == self@,
            r matches Err(e) ==> exists|k: int|
                0 <= k < self@.len() && !(target.min_value() <= self@[k] <= target.max_value())
                    && ints_in_range(self@.take(k), target) && e == (BufferError::ValueOutOfRange {
                    value: self@[k] as i128,
                    target,
                }),
    {
        let n = self.len();
        let mut out: Vec<i128> = Vec::new();
        let mut idx: usize = 0;
        while idx < n
            invariant
                n == self@.len(),
                idx <= n,
                out@.len() == idx,
                forall|j: int| 0 <= j < idx ==> out@[j] as int == #[trigger] self@[j],
                ints_in_range(self@.take(idx as int), target),
            decreases n - idx,
        {
            match self.read_checked(idx, target) {
                Ok(v) => {
                    out.push(v);
                },
                Err(e) => {
                    proof {
                        assert(!(target.min_value() <= self@[idx as int] <= target.max_value()));
                    }
                    return Err(e);
                },
            }
            proof {
                assert forall|k: int| 0 <= k < idx + 1 implies target.min_value() <= #[trigger] self@.take(
                    idx + 1,
                )[k] <= target.max_value() by {
                    if k < idx {
                        assert(self@.take(idx + 1)[k] == self@.take(idx as int)[k]);
                    }
                }
            }
            idx = idx + 1;
        }
        proof {
            assert(self@.take(n as int) =~= self@);
            assert(as_ints(out@) =~= self@);
        }
        Ok(out)
    }
}

} // verus!
