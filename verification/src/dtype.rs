//! Fixed-width integer types: their properties, promotion, and how they are named
//! by Python buffer format codes and by dtype names.

use vstd::prelude::*;
use crate::encoding::{append_encoded, decode_in, decoded, encoded, ByteOrder};

verus! {

/// Python buffer format codes and byte-order prefixes, as bytes.
pub const FORMAT_I8: u8 = 98; // 'b'
pub const FORMAT_I16: u8 = 104; // 'h'
pub const FORMAT_I32: u8 = 105; // 'i'
pub const FORMAT_I64: u8 = 113; // 'q'
pub const FORMAT_U8: u8 = 66; // 'B'
pub const FORMAT_U16: u8 = 72; // 'H'
pub const FORMAT_U32: u8 = 73; // 'I'
pub const FORMAT_U64: u8 = 81; // 'Q'
pub const FORMAT_LONG: u8 = 108; // 'l'
pub const FORMAT_ULONG: u8 = 76; // 'L'
pub const FORMAT_SSIZE: u8 = 110; // 'n'
pub const FORMAT_SIZE: u8 = 78; // 'N'
pub const ORDER_NATIVE: u8 = 64; // '@'
pub const ORDER_STANDARD: u8 = 61; // '='
pub const ORDER_LITTLE: u8 = 60; // '<'
pub const ORDER_BIG: u8 = 62; // '>'
pub const ORDER_NETWORK: u8 = 33; // '!'

/// The fixed-width integer types that keys and labels may have.
#[derive(Clone, Copy, Debug, PartialEq, Eq, Structural)]
pub enum DTypeKind {
    I8,
    I16,
    I32,
    I64,
    U8,
    U16,
    U32,
    U64,
}

/// Errors of dtype parsing, promotion and encoding.
#[derive(Clone, Copy, Debug, PartialEq, Eq, Structural)]
pub enum DTypeError {
    /// Promotion of an empty list.
    NoDtypes,
    /// Signed types promoted together with `uint64`.
    SignedWithUint64,
    /// No signed type covers all input ranges.
    NoCoveringSignedDtype,
    /// A buffer format that is not one integer format code, with an optional
    /// byte-order prefix.
    UnsupportedBufferFormat,
    /// A buffer format with a non-native byte order.
    NonNativeEndian,
    /// A buffer format code that is no integer type.
    UnsupportedIntegerFormat,
    /// A buffer whose item size does not match its format code.
    ItemsizeMismatch,
    /// A value outside the range of the output type.
    ValueOutOfRange { value: i128 },
}

impl DTypeKind {
    /// The Python buffer format code of the type.
    #[verifier::allow_in_spec]
    pub fn format_code(self) -> u8
        returns
            match self {
                Self::I8 => FORMAT_I8,
                Self::I16 => FORMAT_I16,
                Self::I32 => FORMAT_I32,
                Self::I64 => FORMAT_I64,
                Self::U8 => FORMAT_U8,
                Self::U16 => FORMAT_U16,
                Self::U32 => FORMAT_U32,
                Self::U64 => FORMAT_U64,
            },
    {
        match self {
            Self::I8 => FORMAT_I8,
            Self::I16 => FORMAT_I16,
            Self::I32 => FORMAT_I32,
            Self::I64 => FORMAT_I64,
            Self::U8 => FORMAT_U8,
            Self::U16 => FORMAT_U16,
            Self::U32 => FORMAT_U32,
            Self::U64 => FORMAT_U64,
        }
    }

    /// The size of one value, in bytes.
    #[verifier::allow_in_spec]
    pub fn itemsize(self) -> usize
        returns
            match self {
                Self::I8 | Self::U8 => 1usize,
                Self::I16 | Self::U16 => 2usize,
                Self::I32 | Self::U32 => 4usize,
                Self::I64 | Self::U64 => 8usize,
            },
    {
        match self {
            Self::I8 | Self::U8 => 1,
            Self::I16 | Self::U16 => 2,
            Self::I32 | Self::U32 => 4,
            Self::I64 | Self::U64 => 8,
        }
    }

    /// Whether the type is signed.
    #[verifier::allow_in_spec]
    pub fn is_signed(self) -> bool
        returns
            match self {
                Self::I8 | Self::I16 | Self::I32 | Self::I64 => true,
                _ => false,
            },
    {
        matches!(self, Self::I8 | Self::I16 | Self::I32 | Self::I64)
    }

    /// The width of the type, in bits.
    #[verifier::allow_in_spec]
    pub fn bits(self) -> u8
        returns
            match self {
                Self::I8 | Self::U8 => 8u8,
                Self::I16 | Self::U16 => 16u8,
                Self::I32 | Self::U32 => 32u8,
                Self::I64 | Self::U64 => 64u8,
            },
    {
        match self {
            Self::I8 | Self::U8 => 8,
            Self::I16 | Self::U16 => 16,
            Self::I32 | Self::U32 => 32,
            Self::I64 | Self::U64 => 64,
        }
    }

    /// The smallest value of the type.
    #[verifier::allow_in_spec]
    pub fn min_value(self) -> i128
        returns
            match self {
                Self::I8 => i8::MIN as i128,
                Self::I16 => i16::MIN as i128,
                Self::I32 => i32::MIN as i128,
                Self::I64 => i64::MIN as i128,
                _ => 0i128,
            },
    {
        match self {
            Self::I8 => i8::MIN as i128,
            Self::I16 => i16::MIN as i128,
            Self::I32 => i32::MIN as i128,
            Self::I64 => i64::MIN as i128,
            Self::U8 | Self::U16 | Self::U32 | Self::U64 => 0,
        }
    }

    /// The largest value of the type.
    #[verifier::allow_in_spec]
    pub fn max_value(self) -> i128
        returns
            match self {
                Self::I8 => i8::MAX as i128,
                Self::I16 => i16::MAX as i128,
                Self::I32 => i32::MAX as i128,
                Self::I64 => i64::MAX as i128,
                Self::U8 => u8::MAX as i128,
                Self::U16 => u16::MAX as i128,
                Self::U32 => u32::MAX as i128,
                Self::U64 => u64::MAX as i128,
            },
    {
        match self {
            Self::I8 => i8::MAX as i128,
            Self::I16 => i16::MAX as i128,
            Self::I32 => i32::MAX as i128,
            Self::I64 => i64::MAX as i128,
            Self::U8 => u8::MAX as i128,
            Self::U16 => u16::MAX as i128,
            Self::U32 => u32::MAX as i128,
            Self::U64 => u64::MAX as i128,
        }
    }

    /// Whether `value` lies in the range of the type.
    #[verifier::allow_in_spec]
    pub fn contains(self, value: i128) -> bool
        returns
            self.min_value() <= value <= self.max_value(),
    {
        value >= self.min_value() && value <= self.max_value()
    }

    /// The type of the given signedness and width, if there is one.
    #[verifier::allow_in_spec]
    pub fn from_fixed_bits(is_signed: bool, bits: u8) -> Option<Self>
        returns
            if is_signed {
                if bits == 8 {
                    Some(Self::I8)
                } else if bits == 16 {
                    Some(Self::I16)
                } else if bits == 32 {
                    Some(Self::I32)
                } else if bits == 64 {
                    Some(Self::I64)
                } else {
                    None
                }
            } else {
                if bits == 8 {
                    Some(Self::U8)
                } else if bits == 16 {
                    Some(Self::U16)
                } else if bits == 32 {
                    Some(Self::U32)
                } else if bits == 64 {
                    Some(Self::U64)
                } else {
                    None
                }
            },
    {
        match (is_signed, bits) {
            (true, 8) => Some(Self::I8),
            (true, 16) => Some(Self::I16),
            (true, 32) => Some(Self::I32),
            (true, 64) => Some(Self::I64),
            (false, 8) => Some(Self::U8),
            (false, 16) => Some(Self::U16),
            (false, 32) => Some(Self::U32),
            (false, 64) => Some(Self::U64),
            _ => None,
        }
    }
}

// ---------------------------------------------------------------------------
// Promotion
// ---------------------------------------------------------------------------
/// The widest width among the types of `ds` of the given signedness, or `0`.
pub open spec fn max_bits(ds: Seq<DTypeKind>, signed: bool) -> u8
    decreases ds.len(),
{
    if ds.len() == 0 {
        0
    } else {
        let m = max_bits(ds.drop_last(), signed);
        let d = ds.last();
        if d.is_signed() == signed && d.bits() > m {
            d.bits()
        } else {
            m
        }
    }
}

/// The narrowest signed type at least `s` bits wide and wider than `u` bits.
pub open spec fn narrowest_signed(s: u8, u: u8) -> DTypeKind {
    if 8 >= s && 8 > u {
        DTypeKind::I8
    } else if 16 >= s && 16 > u {
        DTypeKind::I16
    } else if 32 >= s && 32 > u {
        DTypeKind::I32
    } else {
        DTypeKind::I64
    }
}

/// The one type to which the types `ds` promote: the widest unsigned or signed type
/// when all have one signedness, else the narrowest signed type that holds every
/// value of every type; `uint64` mixed with a signed type has none.
pub open spec fn promoted(ds: Seq<DTypeKind>) -> Result<DTypeKind, DTypeError> {
    let s = max_bits(ds, true);
    let u = max_bits(ds, false);
    if ds.len() == 0 {
        Err(DTypeError::NoDtypes)
    } else if s == 0 {
        Ok(DTypeKind::from_fixed_bits(false, u).unwrap())
    } else if u == 0 {
        Ok(DTypeKind::from_fixed_bits(true, s).unwrap())
    } else if u == 64 {
        Err(DTypeError::SignedWithUint64)
    } else {
        Ok(narrowest_signed(s, u))
    }
}

proof fn lemma_max_bits(ds: Seq<DTypeKind>)
    ensures
        max_bits(ds, true) == 0 || max_bits(ds, true) == 8 || max_bits(ds, true) == 16 || max_bits(
            ds,
            true,
        ) == 32 || max_bits(ds, true) == 64,
        max_bits(ds, false) == 0 || max_bits(ds, false) == 8 || max_bits(ds, false) == 16
            || max_bits(ds, false) == 32 || max_bits(ds, false) == 64,
        ds.len() > 0 ==> max_bits(ds, true) > 0 || max_bits(ds, false) > 0,
    decreases ds.len(),
{
    if ds.len() > 0 {
        lemma_max_bits(ds.drop_last());
    }
}

/// Every value of type `d` is a value of type `t`.
pub open spec fn holds_values_of(t: DTypeKind, d: DTypeKind) -> bool {
    t.min_value() <= d.min_value() && d.max_value() <= t.max_value()
}

/// Every value of every type of `ds` is a value of type `t`.
pub open spec fn holds_all(t: DTypeKind, ds: Seq<DTypeKind>) -> bool {
    forall|i: int| 0 <= i < ds.len() ==> holds_values_of(t, #[trigger] ds[i])
}

proof fn lemma_max_bits_bound(ds: Seq<DTypeKind>, signed: bool)
    ensures
        forall|i: int|
            0 <= i < ds.len() && (#[trigger] ds[i]).is_signed() == signed ==> ds[i].bits()
                <= max_bits(ds, signed),
        max_bits(ds, signed) != 0 ==> exists|i: int|
            0 <= i < ds.len() && (#[trigger] ds[i]).is_signed() == signed && ds[i].bits()
                == max_bits(ds, signed),
    decreases ds.len(),
{
    if ds.len() > 0 {
        let init = ds.drop_last();
        lemma_max_bits_bound(init, signed);
        assert forall|i: int|
            0 <= i < ds.len() && (#[trigger] ds[i]).is_signed() == signed implies ds[i].bits()
            <= max_bits(ds, signed) by {
            if i < init.len() {
                assert(ds[i] == init[i]);
            }
        }
        if max_bits(ds, signed) != 0 {
            if max_bits(ds, signed) == max_bits(init, signed) {
                let i = choose|i: int|
                    0 <= i < init.len() && (#[trigger] init[i]).is_signed() == signed
                        && init[i].bits() == max_bits(init, signed);
                assert(ds[i] == init[i]);
            } else {
                assert(ds[ds.len() - 1] == ds.last());
            }
        }
    }
}

/// Promotion gives a type that holds every value of every input type, and no type
/// that does so is narrower; it fails only on no types, or on types whose values no
/// one type holds.
pub proof fn lemma_promoted_holds_all(ds: Seq<DTypeKind>)
    ensures
        promoted(ds) matches Ok(t) ==> holds_all(t, ds) && forall|t2: DTypeKind|
            holds_all(t2, ds) ==> t.bits() <= t2.bits(),
        promoted(ds) is Err ==> ds.len() == 0 || forall|t2: DTypeKind| !holds_all(t2, ds),
{
    lemma_max_bits(ds);
    lemma_max_bits_bound(ds, true);
    lemma_max_bits_bound(ds, false);
    let s = max_bits(ds, true);
    let u = max_bits(ds, false);
    if ds.len() > 0 {
        if s != 0 {
            let i = choose|i: int|
                0 <= i < ds.len() && (#[trigger] ds[i]).is_signed() == true && ds[i].bits() == s;
            assert forall|t2: DTypeKind| holds_all(t2, ds) implies t2.is_signed() && s <= t2.bits() by {
                assert(holds_values_of(t2, ds[i]));
            }
        }
        if u != 0 {
            let i = choose|i: int|
                0 <= i < ds.len() && (#[trigger] ds[i]).is_signed() == false && ds[i].bits() == u;
            assert forall|t2: DTypeKind| holds_all(t2, ds) implies (if t2.is_signed() {
                u < t2.bits()
            } else {
                u <= t2.bits()
            }) by {
                assert(holds_values_of(t2, ds[i]));
            }
        }
        if let Ok(t) = promoted(ds) {
            assert forall|j: int| 0 <= j < ds.len() implies holds_values_of(t, #[trigger] ds[j]) by {
                if ds[j].is_signed() {
                    assert(ds[j].bits() <= s);
                } else {
                    assert(ds[j].bits() <= u);
                }
            }
        }
    }
}

/// Promote the types `dtypes` to one type that holds all their values.
pub fn promote_stateless(dtypes: &[DTypeKind]) -> (r: Result<DTypeKind, DTypeError>)
    ensures
        r == promoted(dtypes@),
        r matches Ok(t) ==> holds_all(t, dtypes@) && forall|t2: DTypeKind|
            holds_all(t2, dtypes@) ==> t.bits() <= t2.bits(),
        r is Err ==> dtypes@.len() == 0 || forall|t2: DTypeKind| !holds_all(t2, dtypes@),
{
    proof {
        lemma_promoted_holds_all(dtypes@);
    }
    if dtypes.len() == 0 {
        return Err(DTypeError::NoDtypes);
    }
    let mut signed_bits: u8 = 0;
    let mut unsigned_bits: u8 = 0;
    let mut i: usize = 0;
    while i < dtypes.len()
        invariant
            i <= dtypes@.len(),
            signed_bits == max_bits(dtypes@.take(i as int), true),
            unsigned_bits == max_bits(dtypes@.take(i as int), false),
        decreases dtypes@.len() - i,
    {
        proof {
            assert(dtypes@.take(i + 1).drop_last() =~= dtypes@.take(i as int));
        }
        let dtype = dtypes[i];
        if dtype.is_signed() {
            if dtype.bits() > signed_bits {
                signed_bits = dtype.bits();
            }
        } else {
            if dtype.bits() > unsigned_bits {
                unsigned_bits = dtype.bits();
            }
        }
        i = i + 1;
    }
    proof {
        assert(dtypes@.take(i as int) =~= dtypes@);
        lemma_max_bits(dtypes@);
    }
    if signed_bits == 0 {
        return Ok(DTypeKind::from_fixed_bits(false, unsigned_bits).unwrap());
    }
    if unsigned_bits == 0 {
        return Ok(DTypeKind::from_fixed_bits(true, signed_bits).unwrap());
    }
    if unsigned_bits == 64 {
        return Err(DTypeError::SignedWithUint64);
    }
    proof {
        if unsigned_bits == 8 {
            assert((1u128 << 8u8) == 256u128) by (bit_vector);
        } else if unsigned_bits == 16 {
            assert((1u128 << 16u8) == 65536u128) by (bit_vector);
        } else {
            assert((1u128 << 32u8) == 0x1_0000_0000u128) by (bit_vector);
        }
    }
    let unsigned_max = (1u128 << unsigned_bits) - 1;
    let candidates = [DTypeKind::I8, DTypeKind::I16, DTypeKind::I32, DTypeKind::I64];
    let mut k: usize = 0;
    while k < 4
        invariant
            k <= 4,
            candidates@ == seq![DTypeKind::I8, DTypeKind::I16, DTypeKind::I32, DTypeKind::I64],
            signed_bits == max_bits(dtypes@, true),
            unsigned_bits == max_bits(dtypes@, false),
            signed_bits == 8 || signed_bits == 16 || signed_bits == 32 || signed_bits == 64,
            unsigned_bits == 8 || unsigned_bits == 16 || unsigned_bits == 32,
            unsigned_max == (if unsigned_bits == 8 {
                255u128
            } else if unsigned_bits == 16 {
                65535u128
            } else {
                0xffff_ffffu128
            }),
            forall|j: int|
                0 <= j < k ==> !(candidates@[j].bits() >= signed_bits
                    && candidates@[j].max_value() as u128 >= unsigned_max),
        decreases 4 - k,
    {
        let candidate = candidates[k];
        if candidate.bits() < signed_bits {
            k = k + 1;
            continue;
        }
        if (candidate.max_value() as u128) >= unsigned_max {
            proof {
                assert(promoted(dtypes@) == Ok::<DTypeKind, DTypeError>(candidate));
                lemma_promoted_holds_all(dtypes@);
            }
            return Ok(candidate);
        }
        k = k + 1;
    }
    Err(DTypeError::NoCoveringSignedDtype)
}

// ---------------------------------------------------------------------------
// Buffer format codes
// ---------------------------------------------------------------------------
/// A byte-order prefix of a buffer format: native `@` or `=`, or little `<`, big `>`
/// or network `!` order.
pub open spec fn is_order_prefix(b: u8) -> bool {
    b == ORDER_NATIVE || b == ORDER_STANDARD || b == ORDER_LITTLE || b == ORDER_BIG || b == ORDER_NETWORK
}

/// A non-native byte-order prefix.
pub open spec fn is_foreign_order(b: u8) -> bool {
    b == ORDER_LITTLE || b == ORDER_BIG || b == ORDER_NETWORK
}

/// The format is one code, with an optional byte-order prefix.
pub open spec fn is_single_code(format: Seq<u8>) -> bool {
    format.len() == 1 || (format.len() == 2 && is_order_prefix(format[0]))
}

/// The codes whose width is the platform's and is read from the item size.
pub open spec fn is_sized_code(code: u8) -> bool {
    code == FORMAT_LONG || code == FORMAT_ULONG || code == FORMAT_SSIZE || code == FORMAT_SIZE
}

/// The width, in bits, that a sized code gets from item size `itemsize`: the item
/// size is taken as a `u8`, times eight.
pub open spec fn sized_bits(itemsize: usize) -> int {
    (itemsize as u8) * 8
}

/// The integer type of format code `code`, given the item size for sized codes.
pub open spec fn code_kind(code: u8, itemsize: usize) -> Option<DTypeKind> {
    if code == FORMAT_I8 {
        DTypeKind::from_fixed_bits(true, 8)
    } else if code == FORMAT_U8 {
        DTypeKind::from_fixed_bits(false, 8)
    } else if code == FORMAT_I16 {
        DTypeKind::from_fixed_bits(true, 16)
    } else if code == FORMAT_U16 {
        DTypeKind::from_fixed_bits(false, 16)
    } else if code == FORMAT_I32 {
        DTypeKind::from_fixed_bits(true, 32)
    } else if code == FORMAT_U32 {
        DTypeKind::from_fixed_bits(false, 32)
    } else if code == FORMAT_I64 {
        DTypeKind::from_fixed_bits(true, 64)
    } else if code == FORMAT_U64 {
        DTypeKind::from_fixed_bits(false, 64)
    } else if code == FORMAT_LONG || code == FORMAT_SSIZE {
        DTypeKind::from_fixed_bits(true, sized_bits(itemsize) as u8)
    } else if code == FORMAT_ULONG || code == FORMAT_SIZE {
        DTypeKind::from_fixed_bits(false, sized_bits(itemsize) as u8)
    } else {
        None
    }
}

/// The integer type that a buffer with format `format` and item size `itemsize`
/// holds, or why it holds none.
pub open spec fn buffer_dtype(format: Seq<u8>, itemsize: usize) -> Result<DTypeKind, DTypeError> {
    if !is_single_code(format) {
        Err(DTypeError::UnsupportedBufferFormat)
    } else if format.len() == 2 && is_foreign_order(format[0]) {
        Err(DTypeError::NonNativeEndian)
    } else {
        match code_kind(format.last(), itemsize) {
            None => Err(DTypeError::UnsupportedIntegerFormat),
            Some(d) => if d.itemsize() != itemsize {
                Err(DTypeError::ItemsizeMismatch)
            } else {
                Ok(d)
            },
        }
    }
}

/// A buffer format names the type whose code it is: the type of a parsed format
/// has the buffer's item size, a fixed code is the format code of its type, and a
/// sized code gives a signed type for `l` and `n`, an unsigned one for `L` and `N`.
/// Every type is parsed back from its own format code and item size, alone or after
/// a native byte-order prefix.
pub proof fn lemma_buffer_dtype_codes(format: Seq<u8>, itemsize: usize)
    ensures
        buffer_dtype(format, itemsize) matches Ok(d) ==> d.itemsize() == itemsize,
        buffer_dtype(format, itemsize) matches Ok(d) ==> (!is_sized_code(format.last())
            ==> d.format_code() == format.last()),
        buffer_dtype(format, itemsize) matches Ok(d) ==> (is_sized_code(format.last())
            ==> d.is_signed() == (format.last() == FORMAT_LONG || format.last() == FORMAT_SSIZE)),
        forall|d: DTypeKind|
            buffer_dtype(seq![#[trigger] d.format_code()], d.itemsize()) == Ok::<
                DTypeKind,
                DTypeError,
            >(d) && buffer_dtype(seq![ORDER_NATIVE, d.format_code()], d.itemsize()) == Ok::<
                DTypeKind,
                DTypeError,
            >(d) && buffer_dtype(seq![ORDER_STANDARD, d.format_code()], d.itemsize()) == Ok::<
                DTypeKind,
                DTypeError,
            >(d),
{
    assert forall|d: DTypeKind|
        buffer_dtype(seq![#[trigger] d.format_code()], d.itemsize()) == Ok::<DTypeKind, DTypeError>(d)
            && buffer_dtype(seq![ORDER_NATIVE, d.format_code()], d.itemsize()) == Ok::<
            DTypeKind,
            DTypeError,
        >(d) && buffer_dtype(seq![ORDER_STANDARD, d.format_code()], d.itemsize()) == Ok::<
            DTypeKind,
            DTypeError,
        >(d) by {
        assert(seq![d.format_code()].last() == d.format_code());
        assert(seq![ORDER_NATIVE, d.format_code()].last() == d.format_code());
        assert(seq![ORDER_STANDARD, d.format_code()].last() == d.format_code());
    }
}

/// Parse the format of a Python buffer, given as its bytes without the trailing
/// null byte, and its item size.
///
/// For the sized codes `l`, `L`, `n` and `N` the width is the item size, as a `u8`,
/// times eight, which must not overflow.
pub fn parse_buffer_dtype(format: &[u8], itemsize: usize) -> (r: Result<DTypeKind, DTypeError>)
    requires
        is_single_code(format@) && is_sized_code(format@.last()) && !(format@.len() == 2
            && is_foreign_order(format@[0])) ==> sized_bits(itemsize) < 256,
    ensures
        r == buffer_dtype(format@, itemsize),
        r matches Ok(d) ==> d.itemsize() == itemsize,
        r matches Ok(d) ==> (!is_sized_code(format@.last()) ==> d.format_code() == format@.last()),
        r matches Ok(d) ==> (is_sized_code(format@.last()) ==> d.is_signed() == (format@.last()
            == FORMAT_LONG || format@.last() == FORMAT_SSIZE)),
{
    proof {
        lemma_buffer_dtype_codes(format@, itemsize);
    }
    let code: u8;
    let prefix: Option<u8>;
    if format.len() == 1 {
        prefix = None;
        code = format[0];
    } else if format.len() == 2 && (format[0] == ORDER_NATIVE || format[0] == ORDER_STANDARD || format[0] == ORDER_LITTLE
        || format[0] == ORDER_BIG || format[0] == ORDER_NETWORK) {
        prefix = Some(format[0]);
        code = format[1];
    } else {
        return Err(DTypeError::UnsupportedBufferFormat);
    }
    match prefix {
        Some(p) => {
            if p == ORDER_LITTLE || p == ORDER_BIG || p == ORDER_NETWORK {
                return Err(DTypeError::NonNativeEndian);
            }
        },
        None => {},
    }
    let parsed = if code == FORMAT_I8 {
        DTypeKind::from_fixed_bits(true, 8)
    } else if code == FORMAT_U8 {
        DTypeKind::from_fixed_bits(false, 8)
    } else if code == FORMAT_I16 {
        DTypeKind::from_fixed_bits(true, 16)
    } else if code == FORMAT_U16 {
        DTypeKind::from_fixed_bits(false, 16)
    } else if code == FORMAT_I32 {
        DTypeKind::from_fixed_bits(true, 32)
    } else if code == FORMAT_U32 {
        DTypeKind::from_fixed_bits(false, 32)
    } else if code == FORMAT_LONG || code == FORMAT_SSIZE {
        DTypeKind::from_fixed_bits(true, (itemsize as u8) * 8)
    } else if code == FORMAT_ULONG || code == FORMAT_SIZE {
        DTypeKind::from_fixed_bits(false, (itemsize as u8) * 8)
    } else if code == FORMAT_I64 {
        DTypeKind::from_fixed_bits(true, 64)
    } else if code == FORMAT_U64 {
        DTypeKind::from_fixed_bits(false, 64)
    } else {
        None
    };
    let dtype = match parsed {
        Some(d) => d,
        None => return Err(DTypeError::UnsupportedIntegerFormat),
    };
    if dtype.itemsize() != itemsize {
        return Err(DTypeError::ItemsizeMismatch);
    }
    Ok(dtype)
}

// ---------------------------------------------------------------------------
// Values as native-endian bytes
// ---------------------------------------------------------------------------
/// `u16::from_ne_bytes`: the number whose bytes in the machine's byte order are
/// `bytes`. Nothing is stated of it: it depends on the machine.
#[verifier::external_body]
fn u16_from_native_bytes(bytes: [u8; 2]) -> u16 {
    u16::from_ne_bytes(bytes)
}

/// The byte order in which the bytes `[1, 0]` read as the number `probe`:
/// little-endian where `probe` is one, else big-endian.
pub fn byte_order_from_probe(probe: u16) -> (r: ByteOrder)
    ensures
        r == (if probe == 1 {
            ByteOrder::Little
        } else {
            ByteOrder::Big
        }),
{
    if probe == 1 {
        ByteOrder::Little
    } else {
        ByteOrder::Big
    }
}

/// The byte order of the machine: the order that `byte_order_from_probe` gives
/// for the number that the bytes `[1, 0]` read as on this machine.
pub fn native_byte_order() -> ByteOrder {
    byte_order_from_probe(u16_from_native_bytes([1, 0]))
}

/// Append `value` to `buf` as a value of type `dtype` in byte order `order`, or
/// refuse it when it lies outside the range of the type.
pub fn push_value_bytes_in(buf: &mut Vec<u8>, value: i128, dtype: DTypeKind, order: ByteOrder) -> (r:
    Result<(), DTypeError>)
    ensures
        dtype.contains(value) ==> r == Ok::<(), DTypeError>(()) && final(buf)@ == old(buf)@
            + encoded(value as int, dtype, order),
        !dtype.contains(value) ==> r == Err::<(), DTypeError>(DTypeError::ValueOutOfRange { value })
            && final(buf)@ == old(buf)@,
{
    if !dtype.contains(value) {
        return Err(DTypeError::ValueOutOfRange { value });
    }
    append_encoded(buf, value, dtype, order);
    Ok(())
}

/// Append `value` to `buf` as a value of type `dtype` in the machine's byte order,
/// or refuse it when it lies outside the range of the type.
pub fn push_value_bytes(buf: &mut Vec<u8>, value: i128, dtype: DTypeKind) -> (r: Result<(), DTypeError>)
    ensures
        dtype.contains(value) ==> r == Ok::<(), DTypeError>(()) && (final(buf)@ == old(buf)@
            + encoded(value as int, dtype, ByteOrder::Little) || final(buf)@ == old(buf)@ + encoded(
            value as int,
            dtype,
            ByteOrder::Big,
        )),
        !dtype.contains(value) ==> r == Err::<(), DTypeError>(DTypeError::ValueOutOfRange { value })
            && final(buf)@ == old(buf)@,
{
    let order = native_byte_order();
    push_value_bytes_in(buf, value, dtype, order)
}

/// The number of bytes that `decode_value` reads of type `d`: all of them, or for
/// one-byte types the first.
pub open spec fn decodable(bytes: Seq<u8>, d: DTypeKind) -> bool {
    if d.itemsize() == 1 {
        bytes.len() >= 1
    } else {
        bytes.len() == d.itemsize()
    }
}

/// Read a value of type `dtype` from the first bytes of `bytes`, in byte order
/// `order`.
pub fn decode_value_in(bytes: &[u8], dtype: DTypeKind, order: ByteOrder) -> (r: i128)
    requires
        decodable(bytes@, dtype),
    ensures
        r == decoded(bytes@.take(dtype.itemsize() as int), dtype, order),
        dtype.contains(r),
{
    let n = dtype.itemsize();
    let head = vstd::slice::slice_subrange(bytes, 0, n);
    proof {
        assert(head@ =~= bytes@.take(n as int));
    }
    decode_in(head, dtype, order)
}

/// Read a value of type `dtype` from the first bytes of `bytes`, in the machine's
/// byte order.
pub fn decode_value(bytes: &[u8], dtype: DTypeKind) -> (r: i128)
    requires
        decodable(bytes@, dtype),
    ensures
        r == decoded(bytes@.take(dtype.itemsize() as int), dtype, ByteOrder::Little) || r
            == decoded(bytes@.take(dtype.itemsize() as int), dtype, ByteOrder::Big),
        dtype.contains(r),
{
    let order = native_byte_order();
    decode_value_in(bytes, dtype, order)
}

// ---------------------------------------------------------------------------
// Dtype names and codes
// ---------------------------------------------------------------------------
/// The characters with the Unicode property `White_Space`.
pub open spec fn is_white_space(c: char) -> bool {
    let u = c as u32;
    ||| 0x9 <= u <= 0xd
    ||| u == 0x20
    ||| u == 0x85
    ||| u == 0xa0
    ||| u == 0x1680
    ||| 0x2000 <= u <= 0x200a
    ||| u == 0x2028
    ||| u == 0x2029
    ||| u == 0x202f
    ||| u == 0x205f
    ||| u == 0x3000
}

/// `s` without its leading white space.
pub open spec fn trim_start(s: Seq<char>) -> Seq<char>
    decreases s.len(),
{
    if s.len() > 0 && is_white_space(s[0]) {
        trim_start(s.drop_first())
    } else {
        s
    }
}

/// `s` without its trailing white space.
pub open spec fn trim_end(s: Seq<char>) -> Seq<char>
    decreases s.len(),
{
    if s.len() > 0 && is_white_space(s.last()) {
        trim_end(s.drop_last())
    } else {
        s
    }
}

/// `s` without its leading and trailing white space.
pub open spec fn str_trim(s: Seq<char>) -> Seq<char> {
    trim_end(trim_start(s))
}

/// `str::trim`. The contract claims what its documentation says: the result is the
/// argument without its leading and trailing characters of the Unicode property
/// `White_Space`.
#[verifier::external_body]
fn trim_str(s: &str) -> (r: &str)
    ensures
        r@ == str_trim(s@),
{
    s.trim()
}

/// The byte `.`.
pub const DOT: u8 = 46;

/// An ASCII upper-case letter turned to lower case; other bytes are kept.
pub open spec fn ascii_lower(b: u8) -> u8 {
    if 65 <= b <= 90 {
        (b + 32) as u8
    } else {
        b
    }
}

/// The bytes after the last `.` of `s`, or all of `s` when it has none.
pub open spec fn after_last_dot(s: Seq<u8>) -> Seq<u8>
    decreases s.len(),
{
    if s.len() == 0 {
        s
    } else if s.last() == DOT {
        Seq::empty()
    } else {
        after_last_dot(s.drop_last()).push(s.last())
    }
}

/// The type that a one-byte format code names.
pub open spec fn code_dtype(code: u8) -> Option<DTypeKind> {
    if code == FORMAT_I8 {
        Some(DTypeKind::I8)
    } else if code == FORMAT_I16 {
        Some(DTypeKind::I16)
    } else if code == FORMAT_I32 {
        Some(DTypeKind::I32)
    } else if code == FORMAT_I64 {
        Some(DTypeKind::I64)
    } else if code == FORMAT_U8 {
        Some(DTypeKind::U8)
    } else if code == FORMAT_U16 {
        Some(DTypeKind::U16)
    } else if code == FORMAT_U32 {
        Some(DTypeKind::U32)
    } else if code == FORMAT_U64 {
        Some(DTypeKind::U64)
    } else {
        None
    }
}

/// The type that a lower-case name names: `int8` or `i8` through `uint64` or `u64`.
pub open spec fn name_dtype(name: Seq<u8>) -> Option<DTypeKind> {
    // "int8", "i8"
    if name =~= seq![105u8, 110, 116, 56] || name =~= seq![105u8, 56] {
        Some(DTypeKind::I8)
    // "int16", "i16"
    } else if name =~= seq![105u8, 110, 116, 49, 54] || name =~= seq![105u8, 49, 54] {
        Some(DTypeKind::I16)
    // "int32", "i32"
    } else if name =~= seq![105u8, 110, 116, 51, 50] || name =~= seq![105u8, 51, 50] {
        Some(DTypeKind::I32)
    // "int64", "i64"
    } else if name =~= seq![105u8, 110, 116, 54, 52] || name =~= seq![105u8, 54, 52] {
        Some(DTypeKind::I64)
    // "uint8", "u8"
    } else if name =~= seq![117u8, 105, 110, 116, 56] || name =~= seq![117u8, 56] {
        Some(DTypeKind::U8)
    // "uint16", "u16"
    } else if name =~= seq![117u8, 105, 110, 116, 49, 54] || name =~= seq![117u8, 49, 54] {
        Some(DTypeKind::U16)
    // "uint32", "u32"
    } else if name =~= seq![117u8, 105, 110, 116, 51, 50] || name =~= seq![117u8, 51, 50] {
        Some(DTypeKind::U32)
    // "uint64", "u64"
    } else if name =~= seq![117u8, 105, 110, 116, 54, 52] || name =~= seq![117u8, 54, 52] {
        Some(DTypeKind::U64)
    } else {
        None
    }
}

/// The type that the UTF-8 bytes `text` name: one format code, or else a dtype
/// name, compared without regard to ASCII case and after the last `.`.
pub open spec fn text_dtype(text: Seq<u8>) -> Option<DTypeKind> {
    if text.len() == 1 {
        code_dtype(text[0])
    } else {
        name_dtype(after_last_dot(text.map_values(|b: u8| ascii_lower(b))))
    }
}

/// The decimal digits of `n`, as ASCII bytes.
pub open spec fn decimal(n: nat) -> Seq<u8>
    decreases n,
{
    if n < 10 {
        seq![(48 + n) as u8]
    } else {
        decimal(n / 10).push((48 + n % 10) as u8)
    }
}

/// The long name of a type without its width: `int` or `uint`.
pub open spec fn long_stem(d: DTypeKind) -> Seq<u8> {
    if d.is_signed() {
        seq![105u8, 110, 116]
    } else {
        seq![117u8, 105, 110, 116]
    }
}

/// The short name of a type without its width: `i` or `u`.
pub open spec fn short_stem(d: DTypeKind) -> Seq<u8> {
    if d.is_signed() {
        seq![105u8]
    } else {
        seq![117u8]
    }
}

/// The names of a type: its stem, long or short, then its width in decimal.
pub open spec fn names_type(name: Seq<u8>, d: DTypeKind) -> bool {
    name == long_stem(d) + decimal(d.bits() as nat) || name == short_stem(d) + decimal(
        d.bits() as nat,
    )
}

proof fn lemma_no_dot(s: Seq<u8>)
    requires
        forall|i: int| 0 <= i < s.len() ==> #[trigger] s[i] != DOT,
    ensures
        after_last_dot(s) == s,
    decreases s.len(),
{
    if s.len() > 0 {
        lemma_no_dot(s.drop_last());
        assert(s.drop_last().push(s.last()) =~= s);
    }
}

proof fn lemma_lower_noop(s: Seq<u8>)
    requires
        forall|i: int| 0 <= i < s.len() ==> !(65 <= #[trigger] s[i] <= 90),
    ensures
        s.map_values(|b: u8| ascii_lower(b)) == s,
{
    assert(s.map_values(|b: u8| ascii_lower(b)) =~= s);
}

/// The names of one type.
proof fn lemma_type_names(d: DTypeKind)
    ensures
        name_dtype(long_stem(d) + decimal(d.bits() as nat)) == Some(d),
        name_dtype(short_stem(d) + decimal(d.bits() as nat)) == Some(d),
        text_dtype(long_stem(d) + decimal(d.bits() as nat)) == Some(d),
        text_dtype(short_stem(d) + decimal(d.bits() as nat)) == Some(d),
        text_dtype(seq![d.format_code()]) == Some(d),
{
    reveal_with_fuel(decimal, 3);
    let l = long_stem(d) + decimal(d.bits() as nat);
    let s = short_stem(d) + decimal(d.bits() as nat);
    assert(decimal(8) =~= seq![56u8]);
    assert(decimal(16) =~= seq![49u8, 54]);
    assert(decimal(32) =~= seq![51u8, 50]);
    assert(decimal(64) =~= seq![54u8, 52]);
    match d {
        DTypeKind::I8 => {
            assert(l =~= seq![105u8, 110, 116, 56]);
            assert(s =~= seq![105u8, 56]);
        },
        DTypeKind::I16 => {
            assert(l =~= seq![105u8, 110, 116, 49, 54]);
            assert(s =~= seq![105u8, 49, 54]);
        },
        DTypeKind::I32 => {
            assert(l =~= seq![105u8, 110, 116, 51, 50]);
            assert(s =~= seq![105u8, 51, 50]);
        },
        DTypeKind::I64 => {
            assert(l =~= seq![105u8, 110, 116, 54, 52]);
            assert(s =~= seq![105u8, 54, 52]);
        },
        DTypeKind::U8 => {
            assert(l =~= seq![117u8, 105, 110, 116, 56]);
            assert(s =~= seq![117u8, 56]);
        },
        DTypeKind::U16 => {
            assert(l =~= seq![117u8, 105, 110, 116, 49, 54]);
            assert(s =~= seq![117u8, 49, 54]);
        },
        DTypeKind::U32 => {
            assert(l =~= seq![117u8, 105, 110, 116, 51, 50]);
            assert(s =~= seq![117u8, 51, 50]);
        },
        DTypeKind::U64 => {
            assert(l =~= seq![117u8, 105, 110, 116, 54, 52]);
            assert(s =~= seq![117u8, 54, 52]);
        },
    }
    lemma_lower_noop(l);
    lemma_lower_noop(s);
    lemma_no_dot(l);
    lemma_no_dot(s);
}

/// A name states its type's signedness and width: `intN` and `iN` name the signed
/// type of `N` bits, `uintN` and `uN` the unsigned one, as does each type's format
/// code; every name that names a type is one of that type's names, and every type
/// is named by each of its names.
pub proof fn lemma_names_state_type(name: Seq<u8>)
    ensures
        name_dtype(name) matches Some(d) ==> names_type(name, d),
        forall|d: DTypeKind|
            #![trigger names_type(name, d)]
            names_type(name, d) ==> name_dtype(name) == Some(d) && text_dtype(name) == Some(d),
        forall|d: DTypeKind| text_dtype(seq![#[trigger] d.format_code()]) == Some(d),
{
    assert forall|d: DTypeKind| text_dtype(seq![#[trigger] d.format_code()]) == Some(d) by {
        lemma_type_names(d);
    }
    assert forall|d: DTypeKind| #![trigger names_type(name, d)]
        names_type(name, d) implies name_dtype(name) == Some(d) && text_dtype(name) == Some(d) by {
        lemma_type_names(d);
    }
    if let Some(d) = name_dtype(name) {
        lemma_type_names(d);
        reveal_with_fuel(decimal, 3);
        assert(decimal(8) =~= seq![56u8]);
        assert(decimal(16) =~= seq![49u8, 54]);
        assert(decimal(32) =~= seq![51u8, 50]);
        assert(decimal(64) =~= seq![54u8, 52]);
        let l = long_stem(d) + decimal(d.bits() as nat);
        let s = short_stem(d) + decimal(d.bits() as nat);
        match d {
            DTypeKind::I8 => {
                assert(l =~= seq![105u8, 110, 116, 56]);
                assert(s =~= seq![105u8, 56]);
            },
            DTypeKind::I16 => {
                assert(l =~= seq![105u8, 110, 116, 49, 54]);
                assert(s =~= seq![105u8, 49, 54]);
            },
            DTypeKind::I32 => {
                assert(l =~= seq![105u8, 110, 116, 51, 50]);
                assert(s =~= seq![105u8, 51, 50]);
            },
            DTypeKind::I64 => {
                assert(l =~= seq![105u8, 110, 116, 54, 52]);
                assert(s =~= seq![105u8, 54, 52]);
            },
            DTypeKind::U8 => {
                assert(l =~= seq![117u8, 105, 110, 116, 56]);
                assert(s =~= seq![117u8, 56]);
            },
            DTypeKind::U16 => {
                assert(l =~= seq![117u8, 105, 110, 116, 49, 54]);
                assert(s =~= seq![117u8, 49, 54]);
            },
            DTypeKind::U32 => {
                assert(l =~= seq![117u8, 105, 110, 116, 51, 50]);
                assert(s =~= seq![117u8, 51, 50]);
            },
            DTypeKind::U64 => {
                assert(l =~= seq![117u8, 105, 110, 116, 54, 52]);
                assert(s =~= seq![117u8, 54, 52]);
            },
        }
    }
}

/// Whether the bytes of `s` from `start` on are `name`.
fn tail_equals(s: &[u8], start: usize, name: &[u8]) -> (r: bool)
    requires
        start <= s@.len(),
    ensures
        r == (s@.subrange(start as int, s@.len() as int) =~= name@),
{
    if s.len() - start != name.len() {
        return false;
    }
    let mut i: usize = 0;
    while i < name.len()
        invariant
            start <= s@.len() <= usize::MAX,
            s@.len() - start == name@.len(),
            i <= name@.len(),
            forall|j: int| 0 <= j < i ==> s@[start + j] == name@[j],
        decreases name@.len() - i,
    {
        if s[start + i] != name[i] {
            return false;
        }
        i = i + 1;
    }
    true
}

/// The type that `s[start..]` names, as `name_dtype` reads it.
fn tail_dtype(s: &[u8], start: usize) -> (r: Option<DTypeKind>)
    requires
        start <= s@.len(),
    ensures
        r == name_dtype(s@.subrange(start as int, s@.len() as int)),
{
    if tail_equals(s, start, &[105, 110, 116, 56]) || tail_equals(s, start, &[105, 56]) {
        Some(DTypeKind::I8)
    } else if tail_equals(s, start, &[105, 110, 116, 49, 54]) || tail_equals(s, start, &[105, 49, 54]) {
        Some(DTypeKind::I16)
    } else if tail_equals(s, start, &[105, 110, 116, 51, 50]) || tail_equals(s, start, &[105, 51, 50]) {
        Some(DTypeKind::I32)
    } else if tail_equals(s, start, &[105, 110, 116, 54, 52]) || tail_equals(s, start, &[105, 54, 52]) {
        Some(DTypeKind::I64)
    } else if tail_equals(s, start, &[117, 105, 110, 116, 56]) || tail_equals(s, start, &[117, 56]) {
        Some(DTypeKind::U8)
    } else if tail_equals(s, start, &[117, 105, 110, 116, 49, 54]) || tail_equals(s, start, &[117, 49, 54]) {
        Some(DTypeKind::U16)
    } else if tail_equals(s, start, &[117, 105, 110, 116, 51, 50]) || tail_equals(s, start, &[117, 51, 50]) {
        Some(DTypeKind::U32)
    } else if tail_equals(s, start, &[117, 105, 110, 116, 54, 52]) || tail_equals(s, start, &[117, 54, 52]) {
        Some(DTypeKind::U64)
    } else {
        None
    }
}

impl DTypeKind {
    /// The type that the bytes `text` name, as `text_dtype` reads them.
    pub fn from_text_bytes(text: &[u8]) -> (r: Option<Self>)
        ensures
            r == text_dtype(text@),
    {
        if text.len() == 1 {
            let code = text[0];
            return if code == FORMAT_I8 {
                Some(Self::I8)
            } else if code == FORMAT_I16 {
                Some(Self::I16)
            } else if code == FORMAT_I32 {
                Some(Self::I32)
            } else if code == FORMAT_I64 {
                Some(Self::I64)
            } else if code == FORMAT_U8 {
                Some(Self::U8)
            } else if code == FORMAT_U16 {
                Some(Self::U16)
            } else if code == FORMAT_U32 {
                Some(Self::U32)
            } else if code == FORMAT_U64 {
                Some(Self::U64)
            } else {
                None
            };
        }
        let ghost lowered_spec = text@.map_values(|b: u8| ascii_lower(b));
        let mut lowered: Vec<u8> = Vec::new();
        let mut start: usize = 0;
        let mut i: usize = 0;
        while i < text.len()
            invariant
                i <= text@.len(),
                lowered@ =~= lowered_spec.take(i as int),
                lowered_spec == text@.map_values(|b: u8| ascii_lower(b)),
                start <= i,
                after_last_dot(lowered@) =~= lowered@.subrange(start as int, i as int),
            decreases text@.len() - i,
        {
            let b = text[i];
            let lower = if 65 <= b && b <= 90 {
                b + 32
            } else {
                b
            };
            let ghost before = lowered@;
            lowered.push(lower);
            proof {
                assert(lowered@.drop_last() =~= before);
            }
            if lower == DOT {
                start = i + 1;
            }
            i = i + 1;
        }
        proof {
            assert(lowered_spec.take(i as int) =~= lowered_spec);
        }
        tail_dtype(&lowered, start)
    }

    /// The type that a dtype name or format code names: `raw` is trimmed of
    /// white space; one byte is read as a format code, anything else as a name
    /// such as `int32`, `u64` or `dtype.uint16`, without regard to ASCII case.
    pub fn from_name_or_code(raw: &str) -> (r: Option<Self>)
        ensures
            r == text_dtype(vstd::utf8::encode_utf8(str_trim(raw@))),
    {
        let trimmed = trim_str(raw);
        Self::from_text_bytes(trimmed.as_bytes())
    }
}

} // verus!
