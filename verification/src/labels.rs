//! Packed component labels: values of one integer type, stored as bytes in the
//! machine's byte order so that they can be handed out as one buffer.

use vstd::prelude::*;
use crate::dtype::{native_byte_order, push_value_bytes_in, DTypeError, DTypeKind};
use crate::encoding::{decode_in, decoded, encoded, lemma_decoded_encoded, ByteOrder};

verus! {

/// The bytes of the `j`-th value of width `s` in `data`.
pub open spec fn chunk(data: Seq<u8>, j: int, s: int) -> Seq<u8> {
    data.subrange(j * s, j * s + s)
}

/// Whether every value of `vs` lies in the range of `d`.
pub open spec fn all_in_range(vs: Seq<i128>, d: DTypeKind) -> bool {
    forall|k: int| 0 <= k < vs.len() ==> #[trigger] d.contains(vs[k])
}

/// The first value of `vs` outside the range of `d`, if any.
pub open spec fn is_first_out_of_range(vs: Seq<i128>, d: DTypeKind, k: int) -> bool {
    &&& 0 <= k < vs.len()
    &&& !d.contains(vs[k])
    &&& forall|j: int| 0 <= j < k ==> #[trigger] d.contains(vs[j])
}

/// Packed labels: `len` values of type `dtype`, each stored as its bytes in byte
/// order `order`, one after the other in `data`.
pub struct Labels {
    data: Vec<u8>,
    len: usize,
    dtype: DTypeKind,
    order: ByteOrder,
}

impl Labels {
    #[verifier::type_invariant]
    spec fn inv(self) -> bool {
        self.data@.len() == self.len * self.dtype.itemsize()
    }

    /// The type of the labels.
    pub closed spec fn spec_dtype(self) -> DTypeKind {
        self.dtype
    }

    /// The byte order in which the labels are stored.
    pub closed spec fn spec_order(self) -> ByteOrder {
        self.order
    }

    /// The stored bytes.
    pub closed spec fn spec_bytes(self) -> Seq<u8> {
        self.data@
    }
}

impl View for Labels {
    type V = Seq<int>;

    /// The label values, each read back from its bytes.
    closed spec fn view(&self) -> Seq<int> {
        Seq::new(
            self.len as nat,
            |j: int| decoded(chunk(self.data@, j, self.dtype.itemsize() as int), self.dtype, self.order),
        )
    }
}

proof fn lemma_chunk_end(j: int, i: int, s: int)
    requires
        0 <= j < i,
        0 <= s,
    ensures
        j * s + s <= i * s,
        0 <= j * s,
{
    assert(j * s + s <= i * s) by (nonlinear_arith)
        requires
            0 <= j < i,
            0 <= s,
    ;
    assert(0 <= j * s) by (nonlinear_arith)
        requires
            0 <= j,
            0 <= s,
    ;
}

impl Labels {
    /// Pack `values` as labels of type `dtype`, in the machine's byte order; the
    /// first value outside the range of `dtype` is refused.
    pub fn from_values(values: Vec<i128>, dtype: DTypeKind) -> (r: Result<Self, DTypeError>)
        ensures
            r is Ok <==> all_in_range(values@, dtype),
            r matches Ok(l) ==> l@ == values@.map_values(|v: i128| v as int) && l.spec_dtype()
                == dtype,
            r matches Err(e) ==> exists|k: int|
                is_first_out_of_range(values@, dtype, k) && e == (DTypeError::ValueOutOfRange {
                    value: values@[k],
                }),
    {
        let order = native_byte_order();
        let s = dtype.itemsize();
        let mut data: Vec<u8> = Vec::new();
        let mut i: usize = 0;
        while i < values.len()
            invariant
                i <= values@.len(),
                s == dtype.itemsize(),
                data@.len() == i * s,
                forall|j: int| 0 <= j < i ==> #[trigger] dtype.contains(values@[j]),
                forall|j: int|
                    0 <= j < i ==> #[trigger] chunk(data@, j, s as int) == encoded(
                        values@[j] as int,
                        dtype,
                        order,
                    ),
            decreases values@.len() - i,
        {
            let ghost before = data@;
            let v = values[i];
            match push_value_bytes_in(&mut data, v, dtype, order) {
                Ok(()) => {},
                Err(e) => {
                    assert(is_first_out_of_range(values@, dtype, i as int));
                    return Err(e);
                },
            }
            proof {
                lemma_decoded_encoded(v as int, dtype, order);
                assert((i + 1) * s == i * s + s) by (nonlinear_arith);
                assert forall|j: int| 0 <= j < i + 1 implies #[trigger] chunk(data@, j, s as int)
                    == encoded(values@[j] as int, dtype, order) by {
                    if j < i {
                        lemma_chunk_end(j, i as int, s as int);
                        assert(chunk(data@, j, s as int) =~= chunk(before, j, s as int));
                    } else {
                        assert(chunk(data@, j, s as int) =~= encoded(v as int, dtype, order));
                    }
                }
            }
            i = i + 1;
        }
        let labels = Labels { data, len: values.len(), dtype, order };
        proof {
            assert forall|j: int| 0 <= j < values@.len() implies labels@[j] == values@[j] as int by {
                assert(dtype.contains(values@[j]));
                lemma_decoded_encoded(values@[j] as int, dtype, order);
            }
            assert(labels@ =~= values@.map_values(|v: i128| v as int));
        }
        Ok(labels)
    }

    /// The number of labels.
    pub fn len(&self) -> (r: usize)
        ensures
            r == self@.len(),
    {
        self.len
    }

    /// The type of the labels.
    pub fn dtype(&self) -> (r: DTypeKind)
        ensures
            r == self.spec_dtype(),
    {
        self.dtype
    }

    /// The packed bytes of the labels.
    pub fn as_bytes(&self) -> (r: &[u8])
        ensures
            r@ == self.spec_bytes(),
            r@.len() == self@.len() * self.spec_dtype().itemsize(),
            forall|j: int|
                0 <= j < self@.len() ==> decoded(
                    #[trigger] chunk(r@, j, self.spec_dtype().itemsize() as int),
                    self.spec_dtype(),
                    self.spec_order(),
                ) == self@[j],
    {
        proof {
            use_type_invariant(self);
        }
        self.data.as_slice()
    }

    /// Read every label back from its bytes.
    pub fn decoded_values(&self) -> (r: Vec<i128>)
        ensures
            r@.map_values(|v: i128| v as int) == self@,
    {
        proof {
            use_type_invariant(self);
        }
        let stride = self.dtype.itemsize();
        let mut out: Vec<i128> = Vec::new();
        let total = self.data.len();
        let mut idx: usize = 0;
        while idx < self.len
            invariant
                idx <= self.len,
                total == self.data@.len(),
                stride == self.dtype.itemsize(),
                self.data@.len() == self.len * stride,
                out@.len() == idx,
                forall|j: int| 0 <= j < idx ==> out@[j] as int == #[trigger] self@[j],
            decreases self.len - idx,
        {
            proof {
                lemma_chunk_end(idx as int, self.len as int, stride as int);
            }
            let start = idx * stride;
            let bytes = vstd::slice::slice_subrange(self.data.as_slice(), start, start + stride);
            proof {
                assert(bytes@ =~= chunk(self.data@, idx as int, stride as int));
            }
            out.push(decode_in(bytes, self.dtype, self.order));
            idx = idx + 1;
        }
        proof {
            assert(out@.map_values(|v: i128| v as int) =~= self@);
        }
        out
    }

    /// The labels as a list of values.
    pub fn to_list(&self) -> (r: Vec<i128>)
        ensures
            r@.map_values(|v: i128| v as int) == self@,
    {
        self.decoded_values()
    }
}

/// Labels read back give the values they were packed from: a list read from labels
/// packed from `values` is `values`.
pub proof fn lemma_labels_read_back(values: Seq<i128>, labels: Labels, read: Seq<i128>)
    requires
        labels@ == values.map_values(|v: i128| v as int),
        read.map_values(|v: i128| v as int) == labels@,
    ensures
        read == values,
{
    let a = read.map_values(|v: i128| v as int);
    let b = values.map_values(|v: i128| v as int);
    assert(a.len() == read.len() && b.len() == values.len());
    assert forall|k: int| 0 <= k < read.len() implies read[k] == values[k] by {
        assert(a[k] == read[k] as int);
        assert(b[k] == values[k] as int);
    }
    assert(read =~= values);
}

} // verus!
