//! The rules by which a serializable type lays out its fields: how many bits each field
//! takes, how wide a vector's length prefix is, and how wide an enum's variant index is.
//! Each rule takes the values of the attributes that bear on it (`#[bits = N]`, the
//! `#[default_bits(type = N, ..)]` of the declaration and those of the whole project,
//! `#[byte_align]`, `#[max_len = N]`, `#[default_max_len = N]`, an enum's `#[bits = N]`)
//! as plain arguments.
use vstd::prelude::*;
use vstd::arithmetic::power2::{lemma_pow2_pos, lemma_pow2_unfold, pow2};
use vstd::string::StringExecFns;

verus! {

/// The scalar types that have a natural bit width.
#[derive(Debug, Clone, Copy, PartialEq, Eq, Structural)]
pub enum ScalarType {
    U8,
    I8,
    U16,
    I16,
    U32,
    I32,
    U64,
    I64,
    F32,
    F64,
    Bool,
}

/// Why a bit width cannot be used for a field or an enum.
#[derive(Debug, Clone, Copy, PartialEq, Eq, Structural)]
pub enum LayoutError {
    /// More than 64 bits.
    TooWide,
    /// A `bool` takes exactly one bit.
    BoolNeedsOneBit,
    /// More bits than the field's integer type holds.
    ExceedsType,
    /// Fewer bits than it takes to tell an enum's variants apart.
    IndexTooNarrow,
    /// More than 256 variants cannot be told apart by one byte.
    TooManyVariants,
}

/// A default width for the fields of one type, by the type's name.
#[derive(Debug, Clone)]
pub struct BitsDefault {
    pub type_ident: String,
    pub bits: usize,
}

/// The scalar type that a type name names, if any.
pub open spec fn scalar_named(name: Seq<char>) -> Option<ScalarType> {
    if name == "u8"@ {
        Some(ScalarType::U8)
    } else if name == "i8"@ {
        Some(ScalarType::I8)
    } else if name == "u16"@ {
        Some(ScalarType::U16)
    } else if name == "i16"@ {
        Some(ScalarType::I16)
    } else if name == "u32"@ {
        Some(ScalarType::U32)
    } else if name == "i32"@ {
        Some(ScalarType::I32)
    } else if name == "u64"@ {
        Some(ScalarType::U64)
    } else if name == "i64"@ {
        Some(ScalarType::I64)
    } else if name == "f32"@ {
        Some(ScalarType::F32)
    } else if name == "f64"@ {
        Some(ScalarType::F64)
    } else if name == "bool"@ {
        Some(ScalarType::Bool)
    } else {
        None
    }
}

/// The bits a scalar takes when no width is given.
pub open spec fn spec_natural_bits(t: ScalarType) -> nat {
    match t {
        ScalarType::U8 | ScalarType::I8 => 8,
        ScalarType::U16 | ScalarType::I16 => 16,
        ScalarType::U32 | ScalarType::I32 | ScalarType::F32 => 32,
        ScalarType::U64 | ScalarType::I64 | ScalarType::F64 => 64,
        ScalarType::Bool => 1,
    }
}

/// What checking `bits` bits for a field of type `t` finds wrong, if anything.
pub open spec fn spec_bits_error(t: Option<ScalarType>, bits: nat) -> Option<LayoutError> {
    if bits > 64 {
        Some(LayoutError::TooWide)
    } else {
        match t {
            Some(ScalarType::Bool) => if bits != 1 {
                Some(LayoutError::BoolNeedsOneBit)
            } else {
                None
            },
            Some(ScalarType::U8) | Some(ScalarType::I8) => if bits > 8 {
                Some(LayoutError::ExceedsType)
            } else {
                None
            },
            Some(ScalarType::U16) | Some(ScalarType::I16) => if bits > 16 {
                Some(LayoutError::ExceedsType)
            } else {
                None
            },
            Some(ScalarType::U32) | Some(ScalarType::I32) => if bits > 32 {
                Some(LayoutError::ExceedsType)
            } else {
                None
            },
            _ => None,
        }
    }
}

/// The first default given for the type named `name`.
pub open spec fn default_for(defaults: Seq<BitsDefault>, name: Seq<char>) -> Option<nat>
    decreases defaults.len(),
{
    if defaults.len() == 0 {
        None
    } else if defaults[0].type_ident@ == name {
        Some(defaults[0].bits as nat)
    } else {
        default_for(defaults.drop_first(), name)
    }
}

/// The natural width of the type named `type_ident`, or 0 when it is not a scalar (the
/// field serializes itself).
pub open spec fn natural_width_of(type_ident: Option<Seq<char>>) -> nat {
    match type_ident {
        Some(n) => match scalar_named(n) {
            Some(t) => spec_natural_bits(t),
            None => 0,
        },
        None => 0,
    }
}

/// The default in force for the type named `n`: the declaration's own, else one given
/// anywhere in the project.
pub open spec fn default_in_force(own: Seq<BitsDefault>, project: Seq<BitsDefault>, n: Seq<char>) -> Option<
    nat,
> {
    match default_for(own, n) {
        Some(d) => Some(d),
        None => default_for(project, n),
    }
}

/// The width a field takes, and whether that width is checked against its type: its own
/// `bits`; else, for a field aligned to a byte boundary, the natural width of its type;
/// else the default in force for its type's name; else the natural width of a scalar;
/// else 0 (the field serializes itself).
pub open spec fn spec_field_width(
    type_ident: Option<Seq<char>>,
    bits_attr: Option<usize>,
    byte_aligned: bool,
    own: Seq<BitsDefault>,
    project: Seq<BitsDefault>,
) -> (nat, bool) {
    match bits_attr {
        Some(b) => (b as nat, true),
        None => if byte_aligned {
            (natural_width_of(type_ident), false)
        } else {
            match type_ident {
                Some(n) => match default_in_force(own, project, n) {
                    Some(d) => (d, true),
                    None => (natural_width_of(type_ident), false),
                },
                None => (0, false),
            }
        },
    }
}

/// The smallest number of bits that tells `n` values apart: the least `k` with
/// `2^k >= n`.
pub open spec fn is_bits_to_hold(n: nat, k: nat) -> bool {
    &&& pow2(k) >= n
    &&& k == 0 || pow2((k - 1) as nat) < n
}

/// The scalar type a type name names, if any.
pub fn scalar_type_of(name: &str) -> (r: Option<ScalarType>)
    ensures
        r == scalar_named(name@),
{
    let s = String::from_str(name);
    if s == String::from_str("u8") {
        Some(ScalarType::U8)
    } else if s == String::from_str("i8") {
        Some(ScalarType::I8)
    } else if s == String::from_str("u16") {
        Some(ScalarType::U16)
    } else if s == String::from_str("i16") {
        Some(ScalarType::I16)
    } else if s == String::from_str("u32") {
        Some(ScalarType::U32)
    } else if s == String::from_str("i32") {
        Some(ScalarType::I32)
    } else if s == String::from_str("u64") {
        Some(ScalarType::U64)
    } else if s == String::from_str("i64") {
        Some(ScalarType::I64)
    } else if s == String::from_str("f32") {
        Some(ScalarType::F32)
    } else if s == String::from_str("f64") {
        Some(ScalarType::F64)
    } else if s == String::from_str("bool") {
        Some(ScalarType::Bool)
    } else {
        None
    }
}

/// The bits a scalar takes when no width is given.
pub fn natural_bits(t: ScalarType) -> (r: usize)
    ensures
        r == spec_natural_bits(t),
{
    match t {
        ScalarType::U8 | ScalarType::I8 => 8,
        ScalarType::U16 | ScalarType::I16 => 16,
        ScalarType::U32 | ScalarType::I32 | ScalarType::F32 => 32,
        ScalarType::U64 | ScalarType::I64 | ScalarType::F64 => 64,
        ScalarType::Bool => 1,
    }
}

/// Checks that a field of the type named `type_ident` can take `bits` bits: at most 64,
/// exactly one for a `bool`, and no more than an integer type holds.
pub fn validate_field_bits(type_ident: Option<&str>, bits: usize) -> (r: Result<(), LayoutError>)
    ensures
        ({
            let err = spec_bits_error(
                match type_ident {
                    Some(n) => scalar_named(n@),
                    None => None,
                },
                bits as nat,
            );
            &&& r is Ok <==> err is None
            &&& r matches Err(e) ==> err == Some(e)
        }),
{
    if bits > 64 {
        return Err(LayoutError::TooWide);
    }
    let t = match type_ident {
        Some(n) => scalar_type_of(n),
        None => None,
    };
    match t {
        Some(ScalarType::Bool) => if bits != 1 {
            Err(LayoutError::BoolNeedsOneBit)
        } else {
            Ok(())
        },
        Some(ScalarType::U8) | Some(ScalarType::I8) => if bits > 8 {
            Err(LayoutError::ExceedsType)
        } else {
            Ok(())
        },
        Some(ScalarType::U16) | Some(ScalarType::I16) => if bits > 16 {
            Err(LayoutError::ExceedsType)
        } else {
            Ok(())
        },
        Some(ScalarType::U32) | Some(ScalarType::I32) => if bits > 32 {
            Err(LayoutError::ExceedsType)
        } else {
            Ok(())
        },
        _ => Ok(()),
    }
}

/// The default given for the type named `name`, the first one if several are.
fn find_default(defaults: &[BitsDefault], name: &str) -> (r: Option<usize>)
    ensures
        match r {
            Some(b) => default_for(defaults@, name@) == Some(b as nat),
            None => default_for(defaults@, name@) is None,
        },
{
    let target = String::from_str(name);
    let mut i: usize = 0;
    proof {
        assert(defaults@.skip(0) =~= defaults@);
    }
    while i < defaults.len()
        invariant
            i <= defaults@.len(),
            target@ == name@,
            default_for(defaults@, name@) == default_for(defaults@.skip(i as int), name@),
        decreases defaults@.len() - i,
    {
        proof {
            assert(defaults@.skip(i as int).drop_first() =~= defaults@.skip(i + 1));
            assert(defaults@.skip(i as int)[0] == defaults@[i as int]);
        }
        if defaults[i].type_ident == target {
            return Some(defaults[i].bits);
        }
        i = i + 1;
    }
    proof {
        assert(defaults@.skip(i as int).len() == 0);
    }
    None
}

/// The number of bits a field takes: its own `bits` attribute; else, when the field is
/// aligned to a byte boundary, the natural width of its type (no default applies to it);
/// else the default for its type's name, from its declaration's `own` table first and
/// then from the `project` table, the defaults declared anywhere in the project; else the
/// natural width of a scalar type; else 0 when the field's type serializes itself. The
/// width chosen by an attribute or a default must suit the field's type
/// (`validate_field_bits`).
pub fn field_bit_width(
    type_ident: Option<&str>,
    bits_attr: Option<usize>,
    byte_aligned: bool,
    own: &[BitsDefault],
    project: &[BitsDefault],
) -> (r: usize)
    requires
        spec_field_width(
            match type_ident {
                Some(n) => Some(n@),
                None => None,
            },
            bits_attr,
            byte_aligned,
            own@,
            project@,
        ).1 ==> spec_bits_error(
            match type_ident {
                Some(n) => scalar_named(n@),
                None => None,
            },
            spec_field_width(
                match type_ident {
                    Some(n) => Some(n@),
                    None => None,
                },
                bits_attr,
                byte_aligned,
                own@,
                project@,
            ).0,
        ) is None,
    ensures
        r == spec_field_width(
            match type_ident {
                Some(n) => Some(n@),
                None => None,
            },
            bits_attr,
            byte_aligned,
            own@,
            project@,
        ).0,
{
    if let Some(bits) = bits_attr {
        return bits;
    }
    match type_ident {
        Some(name) => {
            if !byte_aligned {
                if let Some(bits) = find_default(own, name) {
                    return bits;
                }
                if let Some(bits) = find_default(project, name) {
                    return bits;
                }
            }
            match scalar_type_of(name) {
                Some(t) => natural_bits(t),
                None => 0,
            }
        },
        None => 0,
    }
}

/// The maximum length in force for a vector field: its own `max_len`, else the default
/// maximum of its declaration, else none.
pub fn max_len_for(field_max_len: Option<usize>, default_max_len: Option<usize>) -> (r: Option<
    usize,
>)
    ensures
        r == match field_max_len {
            Some(m) => Some(m),
            None => default_max_len,
        },
{
    match field_max_len {
        Some(m) => Some(m),
        None => default_max_len,
    }
}

/// The fewest bits that tell `n` values apart.
pub fn bits_to_hold(n: usize) -> (k: usize)
    requires
        n >= 1,
    ensures
        is_bits_to_hold(n as nat, k as nat),
{
    let mut k: usize = 0;
    let mut p: u128 = 1;
    proof {
        vstd::arithmetic::power2::lemma2_to64();
    }
    while p < n as u128
        invariant
            p == pow2(k as nat),
            k <= 64,
            k == 0 || pow2((k - 1) as nat) < n,
            n >= 1,
            n <= usize::MAX,
            p >= 1,
        decreases 64 - k,
    {
        proof {
            lemma_pow2_unfold((k + 1) as nat);
            lemma_pow2_pos(k as nat);
            if k == 64 {
                vstd::arithmetic::power2::lemma2_to64_rest();
                assert(pow2(64) == 0x1_0000_0000_0000_0000);
            }
        }
        p = p * 2;
        k = k + 1;
    }
    k
}

/// The width of a vector's length prefix: the fewest bits that reach `max_len` (`2^r >=
/// max_len`; a maximum of 32 takes 5 bits, of 4 takes 2, of 0 takes none), or 16 bits
/// when no maximum is given.
pub fn vec_length_bits(max_len: Option<usize>) -> (r: usize)
    ensures
        max_len is None ==> r == 16,
        max_len matches Some(m) ==> is_bits_to_hold(m as nat, r as nat),
{
    match max_len {
        Some(m) => if m == 0 {
            0
        } else {
            bits_to_hold(m)
        },
        None => 16,
    }
}

/// The maximum that sets the prefix width: `max_len`, or 65535 when none is given.
pub open spec fn max_len_value(max_len: Option<usize>) -> nat {
    match max_len {
        Some(m) => m as nat,
        None => 65535,
    }
}

/// The width of the length prefix, as [`vec_length_bits`] gives it.
pub open spec fn length_prefix_bits(max_len: Option<usize>) -> nat {
    match max_len {
        Some(m) => choose|k: nat| is_bits_to_hold(m as nat, k),
        None => 16,
    }
}

/// Whether a vector of `len` items can be written: no longer than its maximum (65535
/// when none is given), and with a length that its prefix holds. Any other length is
/// refused as invalid data.
pub fn vec_length_accepted(len: usize, max_len: Option<usize>) -> (r: bool)
    ensures
        r == (len <= max_len_value(max_len) && len < pow2(length_prefix_bits(max_len))),
{
    let bits = vec_length_bits(max_len);
    let limit: usize = match max_len {
        Some(m) => m,
        None => 65535,
    };
    proof {
        vstd::arithmetic::power2::lemma2_to64();
        match max_len {
            Some(m) => lemma_bits_to_hold_unique(m as nat, bits as nat, length_prefix_bits(max_len)),
            None => {},
        }
        assert(bits == length_prefix_bits(max_len));
    }
    if len > limit {
        return false;
    }
    if len == usize::MAX {
        proof {
            lemma_power_above_max(bits as nat);
        }
        return true;
    }
    let need = bits_to_hold(len + 1);
    proof {
        lemma_fits_iff(len as nat, need as nat, bits as nat);
    }
    need <= bits
}

/// A length below `2^k` is one that `need` bits tell apart from the smaller ones exactly
/// when `need <= k`.
proof fn lemma_fits_iff(len: nat, need: nat, k: nat)
    requires
        is_bits_to_hold(len + 1, need),
    ensures
        len < pow2(k) <==> need <= k,
{
    if need <= k {
        if need < k {
            vstd::arithmetic::power2::lemma_pow2_strictly_increases(need, k);
        }
    } else {
        if k < need - 1 {
            vstd::arithmetic::power2::lemma_pow2_strictly_increases(k, (need - 1) as nat);
        }
    }
}

/// A power of two that reaches `usize::MAX` passes it: `usize::MAX` is odd.
proof fn lemma_power_above_max(bits: nat)
    requires
        pow2(bits) >= usize::MAX,
    ensures
        usize::MAX < pow2(bits),
{
    vstd::arithmetic::power2::lemma2_to64();
    if bits >= 1 {
        vstd::arithmetic::power2::lemma_pow2_unfold(bits);
    }
}

/// What is wrong with giving an enum of `count` variants an index of `bits` bits, if
/// anything: fewer bits than tell the variants apart, more than 64, or, in the
/// byte-aligned form, more variants than one byte tells apart.
pub open spec fn spec_enum_bits_error(count: nat, bits: nat, min_bits: nat, byte_aligned: bool) -> Option<
    LayoutError,
> {
    if bits < min_bits {
        Some(LayoutError::IndexTooNarrow)
    } else if bits > 64 {
        Some(LayoutError::TooWide)
    } else if byte_aligned && count > 256 {
        Some(LayoutError::TooManyVariants)
    } else {
        None
    }
}

/// The width of an enum's variant index: the `bits` attribute, or else the fewest bits
/// that tell the variants apart. Refused when the width cannot tell them apart, is more
/// than 64, or, for the byte-aligned form, when there are more than 256 variants.
pub fn enum_index_bits(count: usize, bits_attr: Option<usize>, byte_aligned: bool) -> (r: Result<
    usize,
    LayoutError,
>)
    ensures
        ({
            let min_bits = if count == 0 {
                0
            } else {
                choose|k: nat| is_bits_to_hold(count as nat, k)
            };
            let bits = match bits_attr {
                Some(b) => b as nat,
                None => min_bits,
            };
            &&& r matches Ok(b) ==> b == bits && spec_enum_bits_error(
                count as nat,
                bits,
                min_bits,
                byte_aligned,
            ) is None
            &&& r matches Err(e) ==> spec_enum_bits_error(
                count as nat,
                bits,
                min_bits,
                byte_aligned,
            ) == Some(e)
        }),
{
    let min_bits = if count == 0 {
        0
    } else {
        let k = bits_to_hold(count);
        proof {
            assert(is_bits_to_hold(count as nat, k as nat));
            lemma_bits_to_hold_unique(count as nat, k as nat, choose|j: nat| is_bits_to_hold(count as nat, j));
        }
        k
    };
    let bits = match bits_attr {
        Some(b) => b,
        None => min_bits,
    };
    if bits < min_bits {
        return Err(LayoutError::IndexTooNarrow);
    }
    if bits > 64 {
        return Err(LayoutError::TooWide);
    }
    if byte_aligned && count > 256 {
        return Err(LayoutError::TooManyVariants);
    }
    Ok(bits)
}

/// At most one width is the fewest bits that tell `n` values apart.
pub proof fn lemma_bits_to_hold_unique(n: nat, a: nat, b: nat)
    requires
        is_bits_to_hold(n, a),
    ensures
        is_bits_to_hold(n, b) ==> a == b,
{
    if is_bits_to_hold(n, b) && a != b {
        if a + 1 < b {
            vstd::arithmetic::power2::lemma_pow2_strictly_increases(a, (b - 1) as nat);
        } else if b + 1 < a {
            vstd::arithmetic::power2::lemma_pow2_strictly_increases(b, (a - 1) as nat);
        }
    }
}

/// The natural width of each integer type is its size: its `2^n` values are exactly the
/// values of the type. A `bool` takes one bit, and each float type is as wide as the
/// unsigned integer of its size.
pub proof fn lemma_natural_widths_are_type_sizes()
    ensures
        pow2(spec_natural_bits(ScalarType::U8)) == u8::MAX + 1,
        pow2(spec_natural_bits(ScalarType::I8)) == i8::MAX - i8::MIN + 1,
        pow2(spec_natural_bits(ScalarType::U16)) == u16::MAX + 1,
        pow2(spec_natural_bits(ScalarType::I16)) == i16::MAX - i16::MIN + 1,
        pow2(spec_natural_bits(ScalarType::U32)) == u32::MAX + 1,
        pow2(spec_natural_bits(ScalarType::I32)) == i32::MAX - i32::MIN + 1,
        pow2(spec_natural_bits(ScalarType::U64)) == u64::MAX + 1,
        pow2(spec_natural_bits(ScalarType::I64)) == i64::MAX - i64::MIN + 1,
        spec_natural_bits(ScalarType::F32) == spec_natural_bits(ScalarType::U32),
        spec_natural_bits(ScalarType::F64) == spec_natural_bits(ScalarType::U64),
        spec_natural_bits(ScalarType::Bool) == 1,
{
    vstd::arithmetic::power2::lemma2_to64();
    vstd::arithmetic::power2::lemma2_to64_rest();
}

} // verus!
