//! The structural type model: ranges, dimensions, arbitrary-precision enum
//! variant values, and the `Type` tree that a descriptor string decodes into,
//! together with the bit-width computation.
use vstd::arithmetic::mul::*;
use vstd::prelude::*;

verus! {

/// One dimension `[msb:lsb]`. It may be descending (`msb > lsb`) or ascending
/// (`msb < lsb`); either way it spans `|msb - lsb| + 1` bit positions.
#[derive(Debug, Clone, Copy, PartialEq, Eq, Structural)]
pub struct Range {
    pub msb: i32,
    pub lsb: i32,
}

impl Range {
    /// Number of bit positions the range spans.
    pub open spec fn spec_width(self) -> nat {
        (if self.msb >= self.lsb {
            self.msb - self.lsb + 1
        } else {
            self.lsb - self.msb + 1
        }) as nat
    }

    /// Computes `|msb - lsb| + 1` without overflow.
    pub fn width(&self) -> (w: u64)
        ensures
            w == self.spec_width(),
            1 <= w <= 0x1_0000_0000u64,
    {
        let msb = self.msb as i64;
        let lsb = self.lsb as i64;
        if msb >= lsb {
            (msb - lsb + 1) as u64
        } else {
            (lsb - msb + 1) as u64
        }
    }
}

/// An arbitrary-precision signed integer, held as a sign and the decimal
/// digits of the magnitude (most significant first, no leading zeros; no
/// digits at all means zero). Enum variant values can exceed any fixed-width
/// integer, so they are kept in this exact decimal form.
#[derive(Debug, PartialEq, Eq)]
pub struct IntValue {
    negative: bool,
    digits: Vec<u8>,
}

/// The value of a big-endian sequence of decimal digits.
pub open spec fn digits_val(digits: Seq<u8>) -> nat
    decreases digits.len(),
{
    if digits.len() == 0 {
        0
    } else {
        digits_val(digits.drop_last()) * 10 + digits.last() as nat
    }
}

/// Digits are in range and carry no leading zero.
pub open spec fn digits_normal(digits: Seq<u8>) -> bool {
    &&& forall|i: int| 0 <= i < digits.len() ==> digits[i] < 10
    &&& digits.len() > 0 ==> digits[0] != 0
}

proof fn lemma_digits_val_zero(digits: Seq<u8>)
    requires
        digits_normal(digits),
    ensures
        digits_val(digits) == 0 <==> digits.len() == 0,
    decreases digits.len(),
{
    if digits.len() > 0 {
        if digits.len() == 1 {
            assert(digits.drop_last().len() == 0);
        } else {
            assert(digits_normal(digits.drop_last())) by {
                assert(forall|i: int|
                    0 <= i < digits.drop_last().len() ==> digits.drop_last()[i] == digits[i]);
            }
            lemma_digits_val_zero(digits.drop_last());
        }
    }
}

impl View for IntValue {
    type V = int;

    closed spec fn view(&self) -> int {
        if self.negative {
            -(digits_val(self.digits@) as int)
        } else {
            digits_val(self.digits@) as int
        }
    }
}

impl IntValue {
    /// The representation is normalized: no leading zeros, and a zero
    /// magnitude is never marked negative.
    pub closed spec fn wf(self) -> bool {
        &&& digits_normal(self.digits@)
        &&& self.negative ==> self.digits@.len() > 0
    }

    /// Builds a value from a magnitude given as decimal digits (most
    /// significant first, leading zeros allowed) and a sign marker. A zero
    /// magnitude yields a sign-less zero, as the descriptor syntax demands.
    pub fn from_digits(negative: bool, magnitude: Vec<u8>) -> (r: IntValue)
        requires
            forall|i: int| 0 <= i < magnitude@.len() ==> magnitude@[i] < 10,
        ensures
            r.wf(),
            r@ == if negative {
                -(digits_val(magnitude@) as int)
            } else {
                digits_val(magnitude@) as int
            },
    {
        let mut lead: usize = 0;
        while lead < magnitude.len() && magnitude[lead] == 0
            invariant
                lead <= magnitude@.len(),
                forall|i: int| 0 <= i < magnitude@.len() ==> magnitude@[i] < 10,
                forall|i: int| 0 <= i < lead ==> magnitude@[i] == 0,
            decreases magnitude@.len() - lead,
        {
            lead = lead + 1;
        }
        let mut digits: Vec<u8> = Vec::new();
        let mut i: usize = lead;
        while i < magnitude.len()
            invariant
                lead <= i <= magnitude@.len(),
                forall|j: int| 0 <= j < magnitude@.len() ==> magnitude@[j] < 10,
                forall|j: int| 0 <= j < lead ==> magnitude@[j] == 0,
                digits@ == magnitude@.subrange(lead as int, i as int),
            decreases magnitude@.len() - i,
        {
            let d = magnitude[i];
            digits.push(d);
            assert(digits@ =~= magnitude@.subrange(lead as int, i + 1));
            i = i + 1;
        }
        assert(digits@ =~= magnitude@.subrange(lead as int, magnitude@.len() as int));
        proof {
            lemma_strip_leading_zeros(magnitude@, lead as int);
        }
        let is_zero = digits.len() == 0;
        let r = IntValue { negative: negative && !is_zero, digits };
        proof {
            lemma_digits_val_zero(r.digits@);
        }
        r
    }

    /// The value of an unsigned 64-bit integer.
    pub fn from_u64(v: u64) -> (r: IntValue)
        ensures
            r.wf(),
            r@ == v,
    {
        let mut rev: Vec<u8> = Vec::new();
        let mut n = v;
        proof {
            assert(rev@.reverse() =~= Seq::<u8>::empty());
            assert(digits_val(Seq::<u8>::empty()) == 0);
            assert(pow10(0) == 1);
            assert(n * 1 == n);
        }
        while n > 0
            invariant
                forall|i: int| 0 <= i < rev@.len() ==> rev@[i] < 10,
                digits_val(rev@.reverse()) + n * pow10(rev@.len() as nat) == v,
                n == 0 ==> v == 0 || rev@.len() > 0,
                rev@.len() > 0 ==> rev@.last() != 0 || n > 0,
            decreases n,
        {
            let ghost old_rev = rev@;
            let ghost old_n = n;
            let d = (n % 10) as u8;
            rev.push(d);
            n = n / 10;
            proof {
                lemma_digits_val_reverse_push(old_rev, d);
                assert(old_n == old_n / 10 * 10 + old_n % 10);
                lemma_pow10_next(old_rev.len() as nat);
                assert(old_n * pow10(old_rev.len() as nat) == (old_n / 10) * pow10(
                    old_rev.len() + 1 as nat,
                ) + (old_n % 10) * pow10(old_rev.len() as nat)) by {
                    lemma_mul_is_distributive_add_other_way(
                        pow10(old_rev.len() as nat) as int,
                        (old_n / 10 * 10) as int,
                        (old_n % 10) as int,
                    );
                    lemma_mul_is_associative(
                        (old_n / 10) as int,
                        10,
                        pow10(old_rev.len() as nat) as int,
                    );
                }
            }
        }
        proof {
            if rev@.len() > 0 {
                assert(rev@.reverse()[0] == rev@.last());
            }
            assert(digits_val(rev@.reverse()) == v);
        }
        let digits = reverse_digits(&rev);
        IntValue { negative: false, digits }
    }

    /// The value of a signed 64-bit integer.
    pub fn from_i64(v: i64) -> (r: IntValue)
        ensures
            r.wf(),
            r@ == v,
    {
        if v >= 0 {
            Self::from_u64(v as u64)
        } else {
            let magnitude: u64 = ((-(v + 1)) as u64) + 1;
            let base = Self::from_u64(magnitude);
            proof {
                lemma_digits_val_zero(base.digits@);
            }
            IntValue { negative: true, digits: base.digits }
        }
    }
}

/// Powers of ten.
pub open spec fn pow10(n: nat) -> nat
    decreases n,
{
    if n == 0 {
        1
    } else {
        10 * pow10((n - 1) as nat)
    }
}

proof fn lemma_pow10_next(n: nat)
    ensures
        pow10(n + 1) == 10 * pow10(n),
{
}

proof fn lemma_strip_leading_zeros(digits: Seq<u8>, lead: int)
    requires
        0 <= lead <= digits.len(),
        forall|i: int| 0 <= i < digits.len() ==> digits[i] < 10,
        forall|i: int| 0 <= i < lead ==> digits[i] == 0,
    ensures
        digits_val(digits.subrange(lead, digits.len() as int)) == digits_val(digits),
    decreases digits.len(),
{
    if digits.len() > 0 {
        if lead == digits.len() {
            lemma_strip_leading_zeros(digits.drop_last(), lead - 1);
            assert(digits.drop_last().subrange(lead - 1, (digits.len() - 1) as int)
                =~= Seq::<u8>::empty());
            assert(digits.subrange(lead, digits.len() as int) =~= Seq::<u8>::empty());
            assert(digits_val(digits) == digits_val(digits.drop_last()) * 10 + digits.last());
            assert(digits.last() == 0);
        } else {
            // lead < digits.len(): peel the last digit off both sides.
            let s = digits.subrange(lead, digits.len() as int);
            assert(s.drop_last() =~= digits.drop_last().subrange(lead, digits.len() - 1));
            lemma_strip_leading_zeros(digits.drop_last(), lead);
            assert(digits_val(s) == digits_val(s.drop_last()) * 10 + s.last());
            assert(s.last() == digits.last());
        }
    }
}

proof fn lemma_digits_val_reverse_push(s: Seq<u8>, d: u8)
    ensures
        digits_val(s.push(d).reverse()) == d * pow10(s.len() as nat) + digits_val(s.reverse()),
    decreases s.len(),
{
    let full = s.push(d).reverse();
    if s.len() == 0 {
        assert(full =~= seq![d]);
        assert(full.drop_last() =~= Seq::<u8>::empty());
        assert(s.reverse() =~= Seq::<u8>::empty());
        assert(pow10(0) == 1);
        assert(d * 1 == d);
        assert(digits_val(full) == digits_val(full.drop_last()) * 10 + full.last() as nat);
    } else {
        // full = reverse(s.push(d)) ends with s[0]; dropping it reverses s.drop_first().push(d).
        assert(full.len() == s.len() + 1);
        assert(full.last() == s.push(d)[0]);
        assert(full.drop_last() =~= s.drop_first().push(d).reverse());
        lemma_digits_val_reverse_push(s.drop_first(), d);
        assert(s.reverse().drop_last() =~= s.drop_first().reverse());
        assert(s.reverse().last() == s[0]);
        assert(digits_val(s.reverse()) == digits_val(s.drop_first().reverse()) * 10 + s[0]);
        assert(digits_val(full) == digits_val(full.drop_last()) * 10 + full.last());
        assert(digits_val(full.drop_last()) == d * pow10((s.len() - 1) as nat) + digits_val(
            s.drop_first().reverse(),
        ));
        assert((d * pow10((s.len() - 1) as nat) + digits_val(s.drop_first().reverse())) * 10 == d
            * pow10((s.len() - 1) as nat) * 10 + digits_val(s.drop_first().reverse()) * 10) by {
            lemma_mul_is_distributive_add_other_way(
                10,
                (d * pow10((s.len() - 1) as nat)) as int,
                digits_val(s.drop_first().reverse()) as int,
            );
        }
        assert(d * pow10((s.len() - 1) as nat) * 10 == d * pow10(s.len() as nat)) by {
            lemma_mul_is_associative(d as int, pow10((s.len() - 1) as nat) as int, 10);
            lemma_pow10_next((s.len() - 1) as nat);
        }
    }
}

/// One named member of a struct or union type.
#[derive(Debug, PartialEq)]
pub struct Field {
    pub name: String,
    pub ty: Type,
}

/// One named constant of an enum type. All variants of a well-formed enum
/// share one bit width; the value is kept with arbitrary precision.
#[derive(Debug, PartialEq)]
pub struct Variant {
    pub name: String,
    pub width: usize,
    pub value: IntValue,
}

/// A decoded type descriptor. Packed dimensions contribute to the scalar bit
/// width; unpacked dimensions denote repetition outside the bit vector and
/// make the width undefined.
#[derive(Debug, PartialEq)]
pub enum Type {
    Logic {
        signed: bool,
        packed_dimensions: Vec<Range>,
        unpacked_dimensions: Vec<Range>,
    },
    Struct {
        name: String,
        fields: Vec<Field>,
        packed_dimensions: Vec<Range>,
        unpacked_dimensions: Vec<Range>,
    },
    Union {
        name: String,
        fields: Vec<Field>,
        packed_dimensions: Vec<Range>,
        unpacked_dimensions: Vec<Range>,
    },
    Enum {
        name: String,
        variants: Vec<Variant>,
        packed_dimensions: Vec<Range>,
        unpacked_dimensions: Vec<Range>,
    },
}

/// Why a width query failed.
#[derive(Debug, Clone, Copy, PartialEq, Eq, Structural)]
pub enum WidthError {
    /// Unpacked dimensions denote repetition outside the bit vector and
    /// cannot be summed into a scalar width.
    HasUnpackedDimensions,
    /// An enum without variants has no width.
    EmptyEnum,
    /// Enum variants that declare different widths have no common width.
    InconsistentVariantWidths,
    /// The mathematical width does not fit in `usize`.
    Overflow,
}

/// Product of the spans of a dimension list.
pub open spec fn ranges_product(dims: Seq<Range>) -> nat
    decreases dims.len(),
{
    if dims.len() == 0 {
        1
    } else {
        dims[0].spec_width() * ranges_product(dims.drop_first())
    }
}

impl Type {
    /// The packed dimensions of any variant.
    pub open spec fn spec_packed_dimensions(self) -> Seq<Range> {
        match self {
            Type::Logic { packed_dimensions, .. } => packed_dimensions@,
            Type::Struct { packed_dimensions, .. } => packed_dimensions@,
            Type::Union { packed_dimensions, .. } => packed_dimensions@,
            Type::Enum { packed_dimensions, .. } => packed_dimensions@,
        }
    }

    /// The unpacked dimensions of any variant.
    pub open spec fn spec_unpacked_dimensions(self) -> Seq<Range> {
        match self {
            Type::Logic { unpacked_dimensions, .. } => unpacked_dimensions@,
            Type::Struct { unpacked_dimensions, .. } => unpacked_dimensions@,
            Type::Union { unpacked_dimensions, .. } => unpacked_dimensions@,
            Type::Enum { unpacked_dimensions, .. } => unpacked_dimensions@,
        }
    }

    /// How many scalar elements the packed dimensions replicate the base
    /// element into: the product of all packed spans.
    pub open spec fn spec_element_count(self) -> nat {
        ranges_product(self.spec_packed_dimensions())
    }

    /// The bit width of a type, as unbounded mathematics. The first failure
    /// in evaluation order decides the error: field errors left to right,
    /// then the variant-specific checks, then `Overflow` for results beyond
    /// `usize`.
    pub open spec fn spec_width(self) -> Result<nat, WidthError>
        decreases self,
    {
        match self {
            Type::Logic { .. } => self.spec_scaled(1),
            Type::Struct { fields, .. } => match sum_field_widths(fields@) {
                Ok(s) => self.spec_scaled(s),
                Err(e) => Err(e),
            },
            Type::Union { fields, .. } => match max_field_widths(fields@) {
                Ok(m) => self.spec_scaled(m),
                Err(e) => Err(e),
            },
            Type::Enum { variants, .. } => {
                if variants.len() == 0 {
                    Err(WidthError::EmptyEnum)
                } else if exists|i: int|
                    0 <= i < variants@.len() && (#[trigger] variants@[i].width)
                        != variants@[0].width {
                    Err(WidthError::InconsistentVariantWidths)
                } else {
                    self.spec_scaled(variants@[0].width as nat)
                }
            },
        }
    }

    /// Scales a base width by the element count, rejecting unpacked
    /// dimensions and results beyond `usize`.
    pub open spec fn spec_scaled(self, base: nat) -> Result<nat, WidthError> {
        if self.spec_unpacked_dimensions().len() > 0 {
            Err(WidthError::HasUnpackedDimensions)
        } else if base > usize::MAX || self.spec_element_count() > usize::MAX || base
            * self.spec_element_count() > usize::MAX {
            Err(WidthError::Overflow)
        } else {
            Ok(base * self.spec_element_count())
        }
    }
}

/// Sum of the widths of a field list, left to right; the first field whose
/// width fails decides the error.
pub open spec fn sum_field_widths(fields: Seq<Field>) -> Result<nat, WidthError>
    decreases fields,
{
    if fields.len() == 0 {
        Ok(0)
    } else {
        match fields[0].ty.spec_width() {
            Err(e) => Err(e),
            Ok(w) => match sum_field_widths(fields.drop_first()) {
                Err(e) => Err(e),
                Ok(s) => Ok(w + s),
            },
        }
    }
}

/// Maximum of the widths of a field list, left to right; the first field
/// whose width fails decides the error.
pub open spec fn max_field_widths(fields: Seq<Field>) -> Result<nat, WidthError>
    decreases fields,
{
    if fields.len() == 0 {
        Ok(0)
    } else {
        match fields[0].ty.spec_width() {
            Err(e) => Err(e),
            Ok(w) => match max_field_widths(fields.drop_first()) {
                Err(e) => Err(e),
                Ok(m) => Ok(if w >= m {
                    w
                } else {
                    m
                }),
            },
        }
    }
}

proof fn lemma_ranges_product_pos(dims: Seq<Range>)
    ensures
        ranges_product(dims) >= 1,
    decreases dims.len(),
{
    if dims.len() > 0 {
        lemma_ranges_product_pos(dims.drop_first());
        assert(dims[0].spec_width() * ranges_product(dims.drop_first()) >= 1)
            by (nonlinear_arith)
            requires
                dims[0].spec_width() >= 1,
                ranges_product(dims.drop_first()) >= 1,
        ;
    }
}

proof fn lemma_ranges_product_split(dims: Seq<Range>, i: int)
    requires
        0 <= i <= dims.len(),
    ensures
        ranges_product(dims) == ranges_product(dims.subrange(0, i)) * ranges_product(
            dims.subrange(i, dims.len() as int),
        ),
    decreases i,
{
    if i == 0 {
        assert(dims.subrange(0, 0) =~= Seq::<Range>::empty());
        assert(dims.subrange(0, dims.len() as int) =~= dims);
        assert(ranges_product(Seq::<Range>::empty()) == 1);
        assert(1 * ranges_product(dims) == ranges_product(dims));
    } else {
        let tail = dims.drop_first();
        lemma_ranges_product_split(tail, i - 1);
        assert(tail.subrange(0, i - 1) =~= dims.subrange(0, i).drop_first());
        assert(tail.subrange(i - 1, tail.len() as int) =~= dims.subrange(i, dims.len() as int));
        let w0 = dims[0].spec_width();
        let a = ranges_product(dims.subrange(0, i).drop_first());
        let b = ranges_product(dims.subrange(i, dims.len() as int));
        assert(dims.subrange(0, i)[0] == dims[0]);
        assert(ranges_product(dims.subrange(0, i)) == w0 * a);
        assert(ranges_product(dims) == w0 * (a * b));
        assert(w0 * (a * b) == (w0 * a) * b) by {
            lemma_mul_is_associative(w0 as int, a as int, b as int);
        }
    }
}

/// Computes the element count of a dimension list if it fits in `usize`.
fn ranges_product_checked(dims: &Vec<Range>) -> (r: Option<usize>)
    ensures
        match r {
            Some(c) => c == ranges_product(dims@) && ranges_product(dims@) <= usize::MAX,
            None => ranges_product(dims@) > usize::MAX,
        },
{
    let mut acc: usize = 1;
    let mut i: usize = 0;
    proof {
        assert(dims@.subrange(0, 0) =~= Seq::<Range>::empty());
    }
    while i < dims.len()
        invariant
            i <= dims@.len(),
            acc == ranges_product(dims@.subrange(0, i as int)),
        decreases dims@.len() - i,
    {
        let w = dims[i].width();
        proof {
            assert(usize::MAX as u128 <= 0xFFFF_FFFF_FFFF_FFFFu128);
            assert((acc as u128) * (w as u128) < u128::MAX)
                by (nonlinear_arith)
                requires
                    (acc as u128) <= 0xFFFF_FFFF_FFFF_FFFFu128,
                    (w as u128) <= 0x1_0000_0000u128,
            ;
        }
        let wide: u128 = (acc as u128) * (w as u128);
        proof {
            lemma_ranges_product_split(dims@, i as int);
            let rest = dims@.subrange(i as int, dims@.len() as int);
            assert(rest[0] == dims@[i as int]);
            assert(rest.drop_first() =~= dims@.subrange(i + 1, dims@.len() as int));
            lemma_ranges_product_pos(rest.drop_first());
            assert(ranges_product(rest) == dims@[i as int].spec_width() * ranges_product(
                rest.drop_first(),
            ));
            assert(ranges_product(dims@) >= acc * dims@[i as int].spec_width())
                by (nonlinear_arith)
                requires
                    ranges_product(dims@) == acc * ranges_product(rest),
                    ranges_product(rest) == dims@[i as int].spec_width() * ranges_product(
                        rest.drop_first(),
                    ),
                    ranges_product(rest.drop_first()) >= 1,
                    acc >= 0,
                    dims@[i as int].spec_width() >= 0,
            ;
            // The prefix including this dimension equals the running product.
            assert(dims@.subrange(0, i + 1).drop_last() =~= dims@.subrange(0, i as int));
            assert(dims@.subrange(0, i + 1).last() == dims@[i as int]);
            lemma_ranges_product_snoc(dims@.subrange(0, i + 1));
        }
        if wide > (usize::MAX as u128) {
            return None;
        }
        acc = wide as usize;
        i = i + 1;
    }
    proof {
        assert(dims@.subrange(0, dims@.len() as int) =~= dims@);
    }
    Some(acc)
}

proof fn lemma_ranges_product_snoc(dims: Seq<Range>)
    requires
        dims.len() > 0,
    ensures
        ranges_product(dims) == ranges_product(dims.drop_last()) * dims.last().spec_width(),
    decreases dims.len(),
{
    if dims.len() == 1 {
        assert(dims.drop_first() =~= Seq::<Range>::empty());
        assert(dims.drop_last() =~= Seq::<Range>::empty());
        assert(ranges_product(Seq::<Range>::empty()) == 1);
        assert(ranges_product(dims) == dims[0].spec_width() * ranges_product(dims.drop_first()));
        assert(dims[0].spec_width() * 1 == dims[0].spec_width());
        assert(1 * dims.last().spec_width() == dims.last().spec_width());
    } else {
        let tail = dims.drop_first();
        lemma_ranges_product_snoc(tail);
        assert(tail.drop_last() =~= dims.drop_last().drop_first());
        assert(tail.last() == dims.last());
        let w0 = dims[0].spec_width();
        let a = ranges_product(dims.drop_last().drop_first());
        let wl = dims.last().spec_width();
        assert(dims.drop_last()[0] == dims[0]);
        assert(ranges_product(dims.drop_last()) == w0 * a);
        assert(ranges_product(dims) == w0 * (a * wl));
        assert(w0 * (a * wl) == (w0 * a) * wl) by {
            lemma_mul_is_associative(w0 as int, a as int, wl as int);
        }
    }
}

proof fn lemma_sum_field_widths_split(fields: Seq<Field>, i: int)
    requires
        0 <= i <= fields.len(),
    ensures
        sum_field_widths(fields) == (match sum_field_widths(fields.subrange(0, i)) {
            Err(e) => Err::<nat, WidthError>(e),
            Ok(a) => match sum_field_widths(fields.subrange(i, fields.len() as int)) {
                Err(e) => Err(e),
                Ok(b) => Ok((a + b) as nat),
            },
        }),
    decreases i,
{
    if i == 0 {
        assert(fields.subrange(0, 0) =~= Seq::<Field>::empty());
        assert(fields.subrange(0, fields.len() as int) =~= fields);
    } else {
        let tail = fields.drop_first();
        lemma_sum_field_widths_split(tail, i - 1);
        assert(tail.subrange(0, i - 1) =~= fields.subrange(0, i).drop_first());
        assert(tail.subrange(i - 1, tail.len() as int) =~= fields.subrange(
            i,
            fields.len() as int,
        ));
        assert(fields.subrange(0, i)[0] == fields[0]);
    }
}

proof fn lemma_max_field_widths_split(fields: Seq<Field>, i: int)
    requires
        0 <= i <= fields.len(),
    ensures
        max_field_widths(fields) == (match max_field_widths(fields.subrange(0, i)) {
            Err(e) => Err::<nat, WidthError>(e),
            Ok(a) => match max_field_widths(fields.subrange(i, fields.len() as int)) {
                Err(e) => Err(e),
                Ok(b) => Ok(if a >= b {
                    a
                } else {
                    b
                }),
            },
        }),
    decreases i,
{
    if i == 0 {
        assert(fields.subrange(0, 0) =~= Seq::<Field>::empty());
        assert(fields.subrange(0, fields.len() as int) =~= fields);
    } else {
        let tail = fields.drop_first();
        lemma_max_field_widths_split(tail, i - 1);
        assert(tail.subrange(0, i - 1) =~= fields.subrange(0, i).drop_first());
        assert(tail.subrange(i - 1, tail.len() as int) =~= fields.subrange(
            i,
            fields.len() as int,
        ));
        assert(fields.subrange(0, i)[0] == fields[0]);
    }
}

impl Type {
    /// Whether the type has no unpacked dimensions.
    fn unpacked_is_empty(&self) -> (b: bool)
        ensures
            b == (self.spec_unpacked_dimensions().len() == 0),
    {
        match self {
            Type::Logic { unpacked_dimensions, .. } => unpacked_dimensions.len() == 0,
            Type::Struct { unpacked_dimensions, .. } => unpacked_dimensions.len() == 0,
            Type::Union { unpacked_dimensions, .. } => unpacked_dimensions.len() == 0,
            Type::Enum { unpacked_dimensions, .. } => unpacked_dimensions.len() == 0,
        }
    }

    /// The packed dimension list of any variant.
    fn packed_dims(&self) -> (r: &Vec<Range>)
        ensures
            r@ == self.spec_packed_dimensions(),
    {
        match self {
            Type::Logic { packed_dimensions, .. } => packed_dimensions,
            Type::Struct { packed_dimensions, .. } => packed_dimensions,
            Type::Union { packed_dimensions, .. } => packed_dimensions,
            Type::Enum { packed_dimensions, .. } => packed_dimensions,
        }
    }

    /// Scales a base width by the element count, as `spec_scaled` describes.
    fn scale_width(&self, base: u128) -> (r: Result<usize, WidthError>)
        ensures
            (match self.spec_scaled(base as nat) {
                Ok(v) => v <= usize::MAX && r == Ok::<usize, WidthError>(v as usize),
                Err(e) => r == Err::<usize, WidthError>(e),
            }),
    {
        if !self.unpacked_is_empty() {
            return Err(WidthError::HasUnpackedDimensions);
        }
        if base > usize::MAX as u128 {
            return Err(WidthError::Overflow);
        }
        match ranges_product_checked(self.packed_dims()) {
            None => Err(WidthError::Overflow),
            Some(ec) => {
                proof {
                    assert(usize::MAX as u128 <= 0xFFFF_FFFF_FFFF_FFFFu128);
                    assert(base * (ec as u128) < u128::MAX)
                        by (nonlinear_arith)
                        requires
                            base <= 0xFFFF_FFFF_FFFF_FFFFu128,
                            (ec as u128) <= 0xFFFF_FFFF_FFFF_FFFFu128,
                    ;
                }
                let wide: u128 = base * (ec as u128);
                if wide > usize::MAX as u128 {
                    Err(WidthError::Overflow)
                } else {
                    Ok(wide as usize)
                }
            },
        }
    }

    /// The total bit width of the type: the element count for a plain
    /// vector, scaled sums for structs, scaled maxima for unions, and the
    /// shared variant width for enums. Fails exactly as `spec_width` says:
    /// on unpacked dimensions, an empty enum, inconsistent variant widths,
    /// or a width beyond `usize`.
    pub fn width(&self) -> (r: Result<usize, WidthError>)
        ensures
            (match self.spec_width() {
                Ok(v) => v <= usize::MAX && r == Ok::<usize, WidthError>(v as usize),
                Err(e) => r == Err::<usize, WidthError>(e),
            }),
        decreases *self,
    {
        match self {
            Type::Logic { .. } => self.scale_width(1),
            Type::Struct { fields, .. } => {
                let mut total: u128 = 0;
                let mut i: usize = 0;
                proof {
                    assert(fields@.subrange(0, 0) =~= Seq::<Field>::empty());
                }
                while i < fields.len()
                    invariant
                        i <= fields@.len(),
                        *self is Struct,
                        fields@ == self->Struct_fields@,
                        sum_field_widths(fields@.subrange(0, i as int)) == Ok::<nat, WidthError>(
                            total as nat,
                        ),
                        total <= i * (usize::MAX as nat),
                    decreases fields@.len() - i,
                {
                    proof {
                        assert(decreases_to!(*self => fields@[i as int].ty));
                        lemma_sum_field_widths_split(fields@, i as int);
                        let rest = fields@.subrange(i as int, fields@.len() as int);
                        assert(rest[0] == fields@[i as int]);
                        assert(rest.drop_first() =~= fields@.subrange(i + 1, fields@.len() as int));
                        assert(fields@.subrange(0, i + 1).drop_first() =~= fields@.subrange(
                            1,
                            i + 1,
                        ));
                    }
                    match fields[i].ty.width() {
                        Err(e) => {
                            return Err(e);
                        },
                        Ok(w) => {
                            proof {
                                let fw = fields@[i as int].ty.spec_width();
                                assert(fw is Ok && fw->Ok_0 == w as nat);
                                lemma_sum_field_widths_split(fields@.subrange(0, i + 1), i as int);
                                assert(fields@.subrange(0, i + 1).subrange(0, i as int)
                                    =~= fields@.subrange(0, i as int));
                                let single = fields@.subrange(0, i + 1).subrange(i as int, i + 1);
                                assert(single[0] == fields@[i as int]);
                                assert(single.drop_first() =~= Seq::<Field>::empty());
                                assert(sum_field_widths(Seq::<Field>::empty()) == Ok::<
                                    nat,
                                    WidthError,
                                >(0));
                                assert(sum_field_widths(single) == Ok::<nat, WidthError>(w as nat));
                                assert((i + 1) * (usize::MAX as nat) == i * (usize::MAX as nat) + (
                                usize::MAX as nat)) by (nonlinear_arith);
                                assert((i + 1) * (usize::MAX as nat)
                                    < 0x1_0000_0000_0000_0000_0000_0000_0000_0000)
                                    by (nonlinear_arith)
                                    requires
                                        0 <= i + 1 <= 0x1_0000_0000_0000_0000,
                                        usize::MAX as nat <= 0xFFFF_FFFF_FFFF_FFFF,
                                ;
                            }
                            total = total + (w as u128);
                            i = i + 1;
                        },
                    }
                }
                proof {
                    assert(fields@.subrange(0, fields@.len() as int) =~= fields@);
                }
                self.scale_width(total)
            },
            Type::Union { fields, .. } => {
                let mut best: usize = 0;
                let mut i: usize = 0;
                proof {
                    assert(fields@.subrange(0, 0) =~= Seq::<Field>::empty());
                }
                while i < fields.len()
                    invariant
                        i <= fields@.len(),
                        *self is Union,
                        fields@ == self->Union_fields@,
                        max_field_widths(fields@.subrange(0, i as int)) == Ok::<nat, WidthError>(
                            best as nat,
                        ),
                    decreases fields@.len() - i,
                {
                    proof {
                        assert(decreases_to!(*self => fields@[i as int].ty));
                        lemma_max_field_widths_split(fields@, i as int);
                        let rest = fields@.subrange(i as int, fields@.len() as int);
                        assert(rest[0] == fields@[i as int]);
                        assert(rest.drop_first() =~= fields@.subrange(i + 1, fields@.len() as int));
                    }
                    match fields[i].ty.width() {
                        Err(e) => {
                            return Err(e);
                        },
                        Ok(w) => {
                            proof {
                                let fw = fields@[i as int].ty.spec_width();
                                assert(fw is Ok && fw->Ok_0 == w as nat);
                                lemma_max_field_widths_split(fields@.subrange(0, i + 1), i as int);
                                assert(fields@.subrange(0, i + 1).subrange(0, i as int)
                                    =~= fields@.subrange(0, i as int));
                                let single = fields@.subrange(0, i + 1).subrange(i as int, i + 1);
                                assert(single[0] == fields@[i as int]);
                                assert(single.drop_first() =~= Seq::<Field>::empty());
                                assert(max_field_widths(Seq::<Field>::empty()) == Ok::<
                                    nat,
                                    WidthError,
                                >(0));
                                assert(max_field_widths(single) == Ok::<nat, WidthError>(w as nat));
                            }
                            if w > best {
                                best = w;
                            }
                            i = i + 1;
                        },
                    }
                }
                proof {
                    assert(fields@.subrange(0, fields@.len() as int) =~= fields@);
                }
                self.scale_width(best as u128)
            },
            Type::Enum { variants, .. } => {
                if variants.len() == 0 {
                    return Err(WidthError::EmptyEnum);
                }
                let shared = variants[0].width;
                let mut i: usize = 1;
                while i < variants.len()
                    invariant
                        1 <= i <= variants@.len(),
                        *self is Enum,
                        variants@ == self->Enum_variants@,
                        shared == variants@[0].width,
                        forall|j: int| 0 <= j < i ==> (#[trigger] variants@[j].width) == shared,
                    decreases variants@.len() - i,
                {
                    if variants[i].width != shared {
                        return Err(WidthError::InconsistentVariantWidths);
                    }
                    i = i + 1;
                }
                self.scale_width(shared as u128)
            },
        }
    }
}

/// Law: for a struct whose fields all have a defined width, whose own
/// dimensions are all packed, and whose total fits the machine, the width is
/// the sum of the field widths times the element count.
pub proof fn lemma_struct_width(ty: Type)
    requires
        ty is Struct,
        ty.spec_unpacked_dimensions().len() == 0,
        sum_field_widths(ty->Struct_fields@) is Ok,
        sum_field_widths(ty->Struct_fields@)->Ok_0 <= usize::MAX,
        ty.spec_element_count() <= usize::MAX,
        sum_field_widths(ty->Struct_fields@)->Ok_0 * ty.spec_element_count() <= usize::MAX,
    ensures
        ty.spec_width() == Ok::<nat, WidthError>(
            sum_field_widths(ty->Struct_fields@)->Ok_0 * ty.spec_element_count(),
        ),
{
}

/// Law: for a union whose fields all have a defined width, whose own
/// dimensions are all packed, and whose total fits the machine, the width is
/// the maximum of the field widths times the element count.
pub proof fn lemma_union_width(ty: Type)
    requires
        ty is Union,
        ty.spec_unpacked_dimensions().len() == 0,
        max_field_widths(ty->Union_fields@) is Ok,
        max_field_widths(ty->Union_fields@)->Ok_0 <= usize::MAX,
        ty.spec_element_count() <= usize::MAX,
        max_field_widths(ty->Union_fields@)->Ok_0 * ty.spec_element_count() <= usize::MAX,
    ensures
        ty.spec_width() == Ok::<nat, WidthError>(
            max_field_widths(ty->Union_fields@)->Ok_0 * ty.spec_element_count(),
        ),
{
}

/// Law: any unpacked dimension makes the width of a plain vector type
/// undefined, and a packed-only vector's width is its element count when it
/// fits the machine.
pub proof fn lemma_logic_width(ty: Type)
    requires
        ty is Logic,
    ensures
        ty.spec_unpacked_dimensions().len() > 0 ==> ty.spec_width() == Err::<nat, WidthError>(
            WidthError::HasUnpackedDimensions,
        ),
        ty.spec_unpacked_dimensions().len() == 0 && ty.spec_element_count() <= usize::MAX
            ==> ty.spec_width() == Ok::<nat, WidthError>(ty.spec_element_count()),
{
    assert(1 * ty.spec_element_count() == ty.spec_element_count());
}

fn reverse_digits(rev: &Vec<u8>) -> (r: Vec<u8>)
    ensures
        r@ == rev@.reverse(),
{
    let mut r: Vec<u8> = Vec::new();
    let mut i = rev.len();
    while i > 0
        invariant
            i <= rev@.len(),
            r@.len() == rev@.len() - i,
            forall|j: int| 0 <= j < r@.len() ==> r@[j] == rev@[rev@.len() - 1 - j],
        decreases i,
    {
        i = i - 1;
        r.push(rev[i]);
    }
    assert(r@ =~= rev@.reverse());
    r
}

} // verus!
