//! The type-descriptor mini-language: a recursive-descent parser for the
//! compact descriptor strings the elaborator emits for port and parameter
//! types.
//!
//! The grammar, informally: a descriptor is a vector type
//! (`logic`/`bit`/`int`/`longint`, an optional `signed`/`unsigned` modifier
//! and optional dimensions), a `struct`/`union` (`struct packed{...}name`
//! with dimensions), or an `enum{name=width'd magnitude,...}name` with
//! dimensions. Dimension lists are `[msb:lsb]` tokens; tokens after a `$`
//! separator are unpacked. `int` and `longint` imply a trailing `[31:0]` or
//! `[63:0]` packed dimension and default to signed.
//!
//! The functions named `spec_*` form the mathematical model of the grammar:
//! a deterministic parser over a `Seq<char>` with explicit positions. Where
//! a recursive call's position comes out of an earlier parsing step, the
//! call is guarded by a bounds test so that termination is structural; the
//! guards always pass on the positions the parsers actually produce.
use crate::types::{digits_val, Field, IntValue, Range, Type, Variant};
use vstd::prelude::*;
use vstd::string::*;

verus! {

/// Ghost image of `Type` with mathematical collections in place of vectors
/// and strings; what the grammar model produces.
#[verifier::ext_equal]
pub ghost enum TypeV {
    Logic { signed: bool, packed: Seq<Range>, unpacked: Seq<Range> },
    Struct { name: Seq<char>, fields: Seq<FieldV>, packed: Seq<Range>, unpacked: Seq<Range> },
    Union { name: Seq<char>, fields: Seq<FieldV>, packed: Seq<Range>, unpacked: Seq<Range> },
    Enum { name: Seq<char>, variants: Seq<VariantV>, packed: Seq<Range>, unpacked: Seq<Range> },
}

/// Ghost image of `Field`.
#[verifier::ext_equal]
pub ghost struct FieldV {
    pub name: Seq<char>,
    pub ty: TypeV,
}

/// Ghost image of `Variant`; the value is a mathematical integer.
#[verifier::ext_equal]
pub ghost struct VariantV {
    pub name: Seq<char>,
    pub width: nat,
    pub value: int,
}

/// The ghost image of a sequence of fields.
pub open spec fn fields_view(fields: Seq<Field>) -> Seq<FieldV>
    decreases fields,
{
    if fields.len() == 0 {
        Seq::empty()
    } else {
        fields_view(fields.drop_last()).push(field_view(fields.last()))
    }
}

/// The ghost image of one field.
pub open spec fn field_view(f: Field) -> FieldV
    decreases f,
{
    FieldV { name: f.name@, ty: type_view(f.ty) }
}

/// The ghost image of one variant.
pub open spec fn variant_view(v: Variant) -> VariantV {
    VariantV { name: v.name@, width: v.width as nat, value: v.value@ }
}

/// The ghost image of a sequence of variants.
pub open spec fn variants_view(vs: Seq<Variant>) -> Seq<VariantV>
    decreases vs,
{
    if vs.len() == 0 {
        Seq::empty()
    } else {
        variants_view(vs.drop_last()).push(variant_view(vs.last()))
    }
}

/// The ghost image of a decoded type.
pub open spec fn type_view(t: Type) -> TypeV
    decreases t,
{
    match t {
        Type::Logic { signed, packed_dimensions, unpacked_dimensions } => TypeV::Logic {
            signed,
            packed: packed_dimensions@,
            unpacked: unpacked_dimensions@,
        },
        Type::Struct { name, fields, packed_dimensions, unpacked_dimensions } => TypeV::Struct {
            name: name@,
            fields: fields_view(fields@),
            packed: packed_dimensions@,
            unpacked: unpacked_dimensions@,
        },
        Type::Union { name, fields, packed_dimensions, unpacked_dimensions } => TypeV::Union {
            name: name@,
            fields: fields_view(fields@),
            packed: packed_dimensions@,
            unpacked: unpacked_dimensions@,
        },
        Type::Enum { name, variants, packed_dimensions, unpacked_dimensions } => TypeV::Enum {
            name: name@,
            variants: variants_view(variants@),
            packed: packed_dimensions@,
            unpacked: unpacked_dimensions@,
        },
    }
}

pub proof fn lemma_fields_view(fields: Seq<Field>)
    ensures
        fields_view(fields).len() == fields.len(),
        forall|i: int| 0 <= i < fields.len() ==> fields_view(fields)[i] == field_view(fields[i]),
    decreases fields,
{
    if fields.len() > 0 {
        lemma_fields_view(fields.drop_last());
    }
}

pub proof fn lemma_variants_view(vs: Seq<Variant>)
    ensures
        variants_view(vs).len() == vs.len(),
        forall|i: int| 0 <= i < vs.len() ==> variants_view(vs)[i] == variant_view(vs[i]),
    decreases vs,
{
    if vs.len() > 0 {
        lemma_variants_view(vs.drop_last());
    }
}

/// Whitespace between tokens.
pub open spec fn is_space(c: char) -> bool {
    c == ' ' || c == '\t' || c == '\n' || c == '\r'
}

/// Decimal digit.
pub open spec fn is_digit(c: char) -> bool {
    48 <= c as u32 <= 57
}

/// The numeric value of a decimal digit character.
pub open spec fn digit_of(c: char) -> nat {
    (c as u32 - 48) as nat
}

/// First character of an identifier: a letter or underscore.
pub open spec fn is_ident_start(c: char) -> bool {
    (65 <= c as u32 <= 90) || (97 <= c as u32 <= 122) || c == '_'
}

/// Later character of an identifier.
pub open spec fn is_ident_char(c: char) -> bool {
    is_ident_start(c) || is_digit(c)
}

/// First non-whitespace position at or after `pos`.
pub open spec fn spec_ws(s: Seq<char>, pos: int) -> int
    decreases s.len() - pos,
{
    if 0 <= pos < s.len() && is_space(s[pos]) {
        spec_ws(s, pos + 1)
    } else {
        pos
    }
}

/// The literal `lit` occurs at `pos`.
pub open spec fn has_lit(s: Seq<char>, pos: int, lit: Seq<char>) -> bool {
    &&& 0 <= pos
    &&& pos + lit.len() <= s.len()
    &&& s.subrange(pos, pos + lit.len()) == lit
}

/// End of the run of digits starting at `pos`.
pub open spec fn digits_end(s: Seq<char>, pos: int) -> int
    decreases s.len() - pos,
{
    if 0 <= pos < s.len() && is_digit(s[pos]) {
        digits_end(s, pos + 1)
    } else {
        pos
    }
}

/// Value of the digit run `s[from..to)`.
pub open spec fn digits_num(s: Seq<char>, from: int, to: int) -> nat
    decreases to - from,
{
    if from >= to {
        0
    } else {
        digits_num(s, from, to - 1) * 10 + digit_of(s[to - 1])
    }
}

/// A decimal integer with an optional leading minus, whose value fits `i32`:
/// its value and end position.
pub open spec fn spec_number(s: Seq<char>, pos: int) -> Option<(int, int)> {
    let neg = 0 <= pos < s.len() && s[pos] == '-';
    let d0 = if neg {
        pos + 1
    } else {
        pos
    };
    let e = digits_end(s, d0);
    if e == d0 {
        None
    } else {
        let m = digits_num(s, d0, e);
        let v = if neg {
            -(m as int)
        } else {
            m as int
        };
        if i32::MIN <= v <= i32::MAX {
            Some((v, e))
        } else {
            None
        }
    }
}

/// A plain identifier: its text and end position.
pub open spec fn spec_ident(s: Seq<char>, pos: int) -> Option<(Seq<char>, int)> {
    if 0 <= pos < s.len() && is_ident_start(s[pos]) {
        let e = ident_run_end(s, pos + 1);
        Some((s.subrange(pos, e), e))
    } else {
        None
    }
}

/// End of the run of identifier characters starting at `pos`.
pub open spec fn ident_run_end(s: Seq<char>, pos: int) -> int
    decreases s.len() - pos,
{
    if 0 <= pos < s.len() && is_ident_char(s[pos]) {
        ident_run_end(s, pos + 1)
    } else {
        pos
    }
}

/// End of a possibly `::`-qualified identifier whose first segment ends at
/// `e`.
pub open spec fn full_ident_end(s: Seq<char>, e: int) -> int
    decreases s.len() - e,
{
    if has_lit(s, e, "::"@) && e + 2 < s.len() && is_ident_start(s[e + 2]) {
        let e2 = ident_run_end(s, e + 3);
        if e < e2 <= s.len() {
            full_ident_end(s, e2)
        } else {
            e
        }
    } else {
        e
    }
}

/// A `::`-qualified identifier: its full text and end position.
pub open spec fn spec_full_ident(s: Seq<char>, pos: int) -> Option<(Seq<char>, int)> {
    match spec_ident(s, pos) {
        None => None,
        Some((_seg, e)) => {
            let e2 = full_ident_end(s, e);
            Some((s.subrange(pos, e2), e2))
        },
    }
}

/// One `[msb:lsb]` dimension token: the range and its end position.
pub open spec fn spec_range(s: Seq<char>, pos: int) -> Option<(Range, int)> {
    if 0 <= pos < s.len() && s[pos] == '[' {
        let p1 = spec_ws(s, pos + 1);
        match spec_number(s, p1) {
            None => None,
            Some((msb, p2)) => {
                let p3 = spec_ws(s, p2);
                if 0 <= p3 < s.len() && s[p3] == ':' {
                    let p4 = spec_ws(s, p3 + 1);
                    match spec_number(s, p4) {
                        None => None,
                        Some((lsb, p5)) => {
                            let p6 = spec_ws(s, p5);
                            if 0 <= p6 < s.len() && s[p6] == ']' {
                                Some((Range { msb: msb as i32, lsb: lsb as i32 }, p6 + 1))
                            } else {
                                None
                            }
                        },
                    }
                } else {
                    None
                }
            },
        }
    } else {
        None
    }
}

/// A greedy run of dimension tokens, each preceded by optional whitespace:
/// the ranges and the position after the last token (or `pos` if none).
pub open spec fn spec_ranges(s: Seq<char>, pos: int) -> (Seq<Range>, int)
    decreases s.len() - pos,
{
    let p1 = spec_ws(s, pos);
    match spec_range(s, p1) {
        Some((r, p2)) => {
            if pos < p2 <= s.len() {
                let (rest, p3) = spec_ranges(s, p2);
                (seq![r] + rest, p3)
            } else {
                (Seq::empty(), pos)
            }
        },
        None => (Seq::empty(), pos),
    }
}

/// A dimension list: packed tokens, then optionally a `$` separator followed
/// by at least one unpacked token.
pub open spec fn spec_dims(s: Seq<char>, pos: int) -> Option<((Seq<Range>, Seq<Range>), int)> {
    let (packed, p1) = spec_ranges(s, pos);
    let p2 = spec_ws(s, p1);
    if 0 <= p2 < s.len() && s[p2] == '$' {
        let (unpacked, p3) = spec_ranges(s, p2 + 1);
        if unpacked.len() == 0 {
            None
        } else {
            Some(((packed, unpacked), p3))
        }
    } else {
        Some(((packed, Seq::empty()), p1))
    }
}

/// An explicit `signed`/`unsigned` modifier.
pub open spec fn spec_signed_mod(s: Seq<char>, pos: int) -> Option<(bool, int)> {
    if has_lit(s, pos, "signed"@) {
        Some((true, pos + 6))
    } else if has_lit(s, pos, "unsigned"@) {
        Some((false, pos + 8))
    } else {
        None
    }
}

/// The remainder of a vector type after its keyword: optional signedness
/// modifier and dimensions, plus the implied trailing packed dimension of
/// `int`/`longint` if any.
pub open spec fn spec_logic_tail(s: Seq<char>, pos: int, extra: Option<Range>, dflt: bool) -> Option<
    (TypeV, int),
> {
    let p1 = spec_ws(s, pos);
    let (signed, p2) = match spec_signed_mod(s, p1) {
        Some((sg, q)) => (sg, q),
        None => (dflt, pos),
    };
    let p3 = spec_ws(s, p2);
    match spec_dims(s, p3) {
        None => None,
        Some(((packed, unpacked), p4)) => {
            let full_packed = match extra {
                Some(r) => packed.push(r),
                None => packed,
            };
            Some((TypeV::Logic { signed, packed: full_packed, unpacked }, p4))
        },
    }
}

/// One `name=width'd magnitude` enum variant (the value written without
/// inner whitespace): its ghost image and end position.
pub open spec fn spec_variant(s: Seq<char>, pos: int) -> Option<(VariantV, int)> {
    match spec_ident(s, pos) {
        None => None,
        Some((name, e)) => {
            let p1 = spec_ws(s, e);
            if 0 <= p1 < s.len() && s[p1] == '=' {
                let p2 = spec_ws(s, p1 + 1);
                let neg = 0 <= p2 < s.len() && s[p2] == '-';
                let d0 = if neg {
                    p2 + 1
                } else {
                    p2
                };
                let wend = digits_end(s, d0);
                if wend == d0 || !(0 <= wend < s.len() && s[wend] == '\'') {
                    None
                } else if digits_num(s, d0, wend) > usize::MAX {
                    None
                } else {
                    let q = if wend + 1 < s.len() && s[wend + 1] == 's' {
                        wend + 2
                    } else {
                        wend + 1
                    };
                    if 0 <= q < s.len() && s[q] == 'd' {
                        let mend = digits_end(s, q + 1);
                        if mend == q + 1 {
                            None
                        } else {
                            let m = digits_num(s, q + 1, mend);
                            let value: int = if m == 0 {
                                0
                            } else if neg {
                                -(m as int)
                            } else {
                                m as int
                            };
                            Some(
                                (
                                    VariantV { name, width: digits_num(s, d0, wend), value },
                                    mend,
                                ),
                            )
                        }
                    } else {
                        None
                    }
                }
            } else {
                None
            }
        },
    }
}

/// A comma-separated list of at least one variant, each preceded by
/// optional whitespace.
pub open spec fn spec_variants(s: Seq<char>, pos: int) -> Option<(Seq<VariantV>, int)>
    decreases s.len() - pos,
{
    let p1 = spec_ws(s, pos);
    match spec_variant(s, p1) {
        None => None,
        Some((v, p2)) => {
            let p3 = spec_ws(s, p2);
            if 0 <= p3 < s.len() && s[p3] == ',' {
                if pos < p3 + 1 <= s.len() {
                    match spec_variants(s, p3 + 1) {
                        None => None,
                        Some((rest, p4)) => Some((seq![v] + rest, p4)),
                    }
                } else {
                    None
                }
            } else {
                Some((seq![v], p2))
            }
        },
    }
}

/// The remainder of an enum type after the `enum` keyword: the brace-
/// enclosed variant list, an optional name, and dimensions.
pub open spec fn spec_enum_tail(s: Seq<char>, pos: int) -> Option<(TypeV, int)> {
    let p1 = spec_ws(s, pos);
    if 0 <= p1 < s.len() && s[p1] == '{' {
        match spec_variants(s, p1 + 1) {
            None => None,
            Some((variants, p2)) => {
                let p3 = spec_ws(s, p2);
                if 0 <= p3 < s.len() && s[p3] == '}' {
                    let p4 = spec_ws(s, p3 + 1);
                    let (name, p5) = match spec_full_ident(s, p4) {
                        Some((n, q)) => (n, q),
                        None => (Seq::empty(), p4),
                    };
                    let p6 = spec_ws(s, p5);
                    match spec_dims(s, p6) {
                        None => None,
                        Some(((packed, unpacked), p7)) => Some(
                            (TypeV::Enum { name, variants, packed, unpacked }, p7),
                        ),
                    }
                } else {
                    None
                }
            },
        }
    } else {
        None
    }
}

/// A whole type at `pos`, dispatched on its leading keyword.
pub open spec fn spec_type(s: Seq<char>, pos: int) -> Option<(TypeV, int)>
    decreases s.len() - pos, 1int,
{
    if has_lit(s, pos, "logic"@) {
        spec_logic_tail(s, pos + 5, None, false)
    } else if has_lit(s, pos, "bit"@) {
        spec_logic_tail(s, pos + 3, None, false)
    } else if has_lit(s, pos, "struct"@) {
        if pos + 6 <= s.len() {
            spec_su_tail(s, pos + 6, false)
        } else {
            None
        }
    } else if has_lit(s, pos, "union"@) {
        if pos + 5 <= s.len() {
            spec_su_tail(s, pos + 5, true)
        } else {
            None
        }
    } else if has_lit(s, pos, "enum"@) {
        spec_enum_tail(s, pos + 4)
    } else if has_lit(s, pos, "longint"@) {
        spec_logic_tail(s, pos + 7, Some(Range { msb: 63, lsb: 0 }), true)
    } else if has_lit(s, pos, "int"@) {
        spec_logic_tail(s, pos + 3, Some(Range { msb: 31, lsb: 0 }), true)
    } else {
        None
    }
}

/// The remainder of a struct or union type after its keyword: an optional
/// `packed` keyword, the brace-enclosed field list, an optional name, and
/// dimensions.
pub open spec fn spec_su_tail(s: Seq<char>, pos: int, is_union: bool) -> Option<(TypeV, int)>
    decreases s.len() - pos, 3int,
{
    let p1 = spec_ws(s, pos);
    let p2 = if has_lit(s, p1, "packed"@) {
        spec_ws(s, p1 + 6)
    } else {
        p1
    };
    if 0 <= p2 < s.len() && s[p2] == '{' && pos <= p2 {
        match spec_fields(s, p2 + 1) {
            None => None,
            Some((fields, p3)) => {
                let p4 = spec_ws(s, p3);
                if 0 <= p4 < s.len() && s[p4] == '}' {
                    let p5 = spec_ws(s, p4 + 1);
                    let (name, p6) = match spec_full_ident(s, p5) {
                        Some((n, q)) => (n, q),
                        None => (Seq::empty(), p5),
                    };
                    let p7 = spec_ws(s, p6);
                    match spec_dims(s, p7) {
                        None => None,
                        Some(((packed, unpacked), p8)) => Some(
                            (
                                if is_union {
                                    TypeV::Union { name, fields, packed, unpacked }
                                } else {
                                    TypeV::Struct { name, fields, packed, unpacked }
                                },
                                p8,
                            ),
                        ),
                    }
                } else {
                    None
                }
            },
        }
    } else {
        None
    }
}

/// A greedy run of `type name;` members. A member that fails to parse ends
/// the run without consuming anything.
pub open spec fn spec_fields(s: Seq<char>, pos: int) -> Option<(Seq<FieldV>, int)>
    decreases s.len() - pos, 2int,
{
    let p1 = spec_ws(s, pos);
    if pos <= p1 <= s.len() {
        match spec_type(s, p1) {
            None => Some((Seq::empty(), pos)),
            Some((ty, p2)) => {
                let p3 = spec_ws(s, p2);
                match spec_ident(s, p3) {
                    None => Some((Seq::empty(), pos)),
                    Some((name, p4)) => {
                        let p5 = spec_ws(s, p4);
                        if 0 <= p5 < s.len() && s[p5] == ';' && pos < p5 + 1 {
                            match spec_fields(s, p5 + 1) {
                                None => None,
                                Some((rest, p6)) => Some(
                                    (seq![FieldV { name, ty }] + rest, p6),
                                ),
                            }
                        } else {
                            Some((Seq::empty(), pos))
                        }
                    },
                }
            },
        }
    } else {
        None
    }
}

/// A longer digit run never has a smaller value.
proof fn lemma_digits_num_mono(s: Seq<char>, from: int, mid: int, to: int)
    requires
        from <= mid <= to,
    ensures
        digits_num(s, from, to) >= digits_num(s, from, mid),
    decreases to - mid,
{
    if mid < to {
        lemma_digits_num_mono(s, from, mid, to - 1);
        assert(digits_num(s, from, to) == digits_num(s, from, to - 1) * 10 + digit_of(s[to - 1]));
        assert(digits_num(s, from, to - 1) * 10 >= digits_num(s, from, to - 1));
    }
}

/// Digit values collected from a run of the input have the value of the run.
proof fn lemma_digits_val_of_run(ds: Seq<u8>, s: Seq<char>, from: int, to: int)
    requires
        0 <= from,
        ds.len() == to - from,
        forall|j: int| 0 <= j < ds.len() ==> ds[j] == digit_of(s[from + j]),
    ensures
        digits_val(ds) == digits_num(s, from, to),
    decreases ds.len(),
{
    if ds.len() > 0 {
        lemma_digits_val_of_run(ds.drop_last(), s, from, to - 1);
    }
}

/// The characters of a string, one per element.
#[verifier::loop_isolation(false)]
fn chars_of(s: &str) -> (v: Vec<char>)
    ensures
        v@ == s@,
{
    let n = s.unicode_len();
    let mut v: Vec<char> = Vec::new();
    let mut i: usize = 0;
    while i < n
        invariant
            i <= n,
            n == s@.len(),
            v@ == s@.subrange(0, i as int),
        decreases n - i,
    {
        let c = s.get_char(i);
        v.push(c);
        assert(v@ =~= s@.subrange(0, i + 1));
        i = i + 1;
    }
    assert(v@ =~= s@);
    v
}

fn is_space_c(c: char) -> (b: bool)
    ensures
        b == is_space(c),
{
    c == ' ' || c == '\t' || c == '\n' || c == '\r'
}

fn is_digit_c(c: char) -> (b: bool)
    ensures
        b == is_digit(c),
{
    let u = c as u32;
    48 <= u && u <= 57
}

fn is_ident_start_c(c: char) -> (b: bool)
    ensures
        b == is_ident_start(c),
{
    let u = c as u32;
    (65 <= u && u <= 90) || (97 <= u && u <= 122) || c == '_'
}

fn is_ident_char_c(c: char) -> (b: bool)
    ensures
        b == is_ident_char(c),
{
    is_ident_start_c(c) || is_digit_c(c)
}

/// Advances past whitespace.
#[verifier::loop_isolation(false)]
fn skip_ws(chars: &Vec<char>, pos: usize) -> (r: usize)
    requires
        pos <= chars@.len(),
    ensures
        r == spec_ws(chars@, pos as int),
        pos <= r <= chars@.len(),
{
    let mut i = pos;
    while i < chars.len() && is_space_c(chars[i])
        invariant
            pos <= i <= chars@.len(),
            spec_ws(chars@, pos as int) == spec_ws(chars@, i as int),
        decreases chars@.len() - i,
    {
        i = i + 1;
    }
    i
}

/// Tests for a literal keyword at `pos`.
#[verifier::loop_isolation(false)]
fn match_keyword(chars: &Vec<char>, pos: usize, kw: &str) -> (b: bool)
    requires
        pos <= chars@.len(),
    ensures
        b == has_lit(chars@, pos as int, kw@),
{
    let k = kw.unicode_len();
    let n = chars.len();
    if k > n - pos {
        return false;
    }
    let mut i: usize = 0;
    while i < k
        invariant
            0 <= i <= k,
            k == kw@.len(),
            n == chars@.len(),
            pos + k <= n,
            forall|j: int| 0 <= j < i ==> chars@[pos + j] == kw@[j],
        decreases k - i,
    {
        if chars[pos + i] != kw.get_char(i) {
            proof {
                if has_lit(chars@, pos as int, kw@) {
                    assert(chars@.subrange(pos as int, pos + k)[i as int] == kw@[i as int]);
                }
            }
            return false;
        }
        i = i + 1;
    }
    assert(chars@.subrange(pos as int, pos + k) =~= kw@);
    true
}

/// Advances past decimal digits.
#[verifier::loop_isolation(false)]
fn digit_run(chars: &Vec<char>, pos: usize) -> (r: usize)
    requires
        pos <= chars@.len(),
    ensures
        r == digits_end(chars@, pos as int),
        pos <= r <= chars@.len(),
{
    let mut i = pos;
    while i < chars.len() && is_digit_c(chars[i])
        invariant
            pos <= i <= chars@.len(),
            digits_end(chars@, pos as int) == digits_end(chars@, i as int),
        decreases chars@.len() - i,
    {
        i = i + 1;
    }
    i
}

/// Reads a signed decimal number that must fit `i32`.
#[verifier::loop_isolation(false)]
fn parse_number(chars: &Vec<char>, pos: usize) -> (r: Option<(i32, usize)>)
    requires
        pos <= chars@.len(),
    ensures
        (match r {
            Some((v, np)) => spec_number(chars@, pos as int) == Some((v as int, np as int)) && pos
                < np <= chars@.len(),
            None => spec_number(chars@, pos as int) is None,
        }),
{
    let neg = pos < chars.len() && chars[pos] == '-';
    let d0 = if neg {
        pos + 1
    } else {
        pos
    };
    let e = digit_run(chars, d0);
    if e == d0 {
        return None;
    }
    let mut m: u64 = 0;
    let mut i = d0;
    while i < e
        invariant
            pos <= d0 <= i <= e <= chars@.len(),
            e == digits_end(chars@, d0 as int),
            m == digits_num(chars@, d0 as int, i as int),
            m <= 0x1_0000_0000u64,
        decreases e - i,
    {
        proof {
            lemma_digit_run_digits(chars@, d0 as int, i as int);
        }
        let d = (chars[i] as u32 - 48) as u64;
        let next = m * 10 + d;
        proof {
            assert(digits_num(chars@, d0 as int, i + 1) == digits_num(chars@, d0 as int, i as int)
                * 10 + digit_of(chars@[i as int]));
        }
        if next > 0x1_0000_0000u64 {
            proof {
                lemma_digits_num_mono(chars@, d0 as int, i + 1, e as int);
                assert(digits_num(chars@, d0 as int, e as int) > 0x1_0000_0000);
                assert(spec_number(chars@, pos as int) is None);
            }
            return None;
        }
        m = next;
        i = i + 1;
    }
    if neg {
        if m > 0x8000_0000u64 {
            return None;
        }
        let v: i32 = (-(m as i64)) as i32;
        Some((v, e))
    } else {
        if m > 0x7FFF_FFFFu64 {
            return None;
        }
        let v: i32 = m as i32;
        Some((v, e))
    }
}

/// Every position inside a digit run holds a digit.
proof fn lemma_digit_run_digits(s: Seq<char>, from: int, i: int)
    requires
        0 <= from <= i,
        i < digits_end(s, from),
    ensures
        is_digit(s[i]),
    decreases i - from,
{
    if from < i {
        lemma_digit_run_digits(s, from + 1, i);
    }
}

/// Reads a plain identifier.
#[verifier::loop_isolation(false)]
fn parse_ident(txt: &str, chars: &Vec<char>, pos: usize) -> (r: Option<(String, usize)>)
    requires
        txt@ == chars@,
        pos <= chars@.len(),
    ensures
        (match r {
            Some((name, np)) => spec_ident(chars@, pos as int) == Some((name@, np as int)) && pos
                < np <= chars@.len(),
            None => spec_ident(chars@, pos as int) is None,
        }),
{
    if pos < chars.len() && is_ident_start_c(chars[pos]) {
        let mut e = pos + 1;
        while e < chars.len() && is_ident_char_c(chars[e])
            invariant
                pos + 1 <= e <= chars@.len(),
                ident_run_end(chars@, pos + 1) == ident_run_end(chars@, e as int),
            decreases chars@.len() - e,
        {
            e = e + 1;
        }
        let name = String::from_str(txt.substring_char(pos, e));
        Some((name, e))
    } else {
        None
    }
}

/// Reads a `::`-qualified identifier.
#[verifier::loop_isolation(false)]
fn parse_full_ident(txt: &str, chars: &Vec<char>, pos: usize) -> (r: Option<(String, usize)>)
    requires
        txt@ == chars@,
        pos <= chars@.len(),
    ensures
        (match r {
            Some((name, np)) => spec_full_ident(chars@, pos as int) == Some((name@, np as int))
                && pos < np <= chars@.len(),
            None => spec_full_ident(chars@, pos as int) is None,
        }),
{
    if !(pos < chars.len() && is_ident_start_c(chars[pos])) {
        return None;
    }
    let n = chars.len();
    let mut e = pos + 1;
    while e < n && is_ident_char_c(chars[e])
        invariant
            pos + 1 <= e <= n,
            n == chars@.len(),
            ident_run_end(chars@, pos + 1) == ident_run_end(chars@, e as int),
        decreases n - e,
    {
        e = e + 1;
    }
    // `e` is now the end of the first segment; follow `::` joints.
    loop
        invariant
            pos < e <= n,
            n == chars@.len(),
            full_ident_end(chars@, ident_run_end(chars@, pos + 1)) == full_ident_end(
                chars@,
                e as int,
            ),
        decreases n - e,
    {
        if match_keyword(chars, e, "::") && n - e > 2 && is_ident_start_c(chars[e + 2]) {
            let ghost e_old = e as int;
            let mut e2 = e + 3;
            while e2 < n && is_ident_char_c(chars[e2])
                invariant
                    e + 3 <= e2 <= n,
                    n == chars@.len(),
                    ident_run_end(chars@, e + 3) == ident_run_end(chars@, e2 as int),
                decreases n - e2,
            {
                e2 = e2 + 1;
            }
            proof {
                assert(ident_run_end(chars@, e_old + 3) == e2 as int);
                assert(full_ident_end(chars@, e_old) == full_ident_end(chars@, e2 as int));
            }
            e = e2;
        } else {
            proof {
                assert(full_ident_end(chars@, e as int) == e as int);
            }
            break ;
        }
    }
    let name = String::from_str(txt.substring_char(pos, e));
    Some((name, e))
}

/// Reads one `[msb:lsb]` token.
fn parse_range(chars: &Vec<char>, pos: usize) -> (r: Option<(Range, usize)>)
    requires
        pos <= chars@.len(),
    ensures
        (match r {
            Some((rg, np)) => spec_range(chars@, pos as int) == Some((rg, np as int)) && pos < np
                <= chars@.len(),
            None => spec_range(chars@, pos as int) is None,
        }),
{
    if !(pos < chars.len() && chars[pos] == '[') {
        return None;
    }
    let p1 = skip_ws(chars, pos + 1);
    match parse_number(chars, p1) {
        None => None,
        Some((msb, p2)) => {
            let p3 = skip_ws(chars, p2);
            if !(p3 < chars.len() && chars[p3] == ':') {
                return None;
            }
            let p4 = skip_ws(chars, p3 + 1);
            match parse_number(chars, p4) {
                None => None,
                Some((lsb, p5)) => {
                    let p6 = skip_ws(chars, p5);
                    if p6 < chars.len() && chars[p6] == ']' {
                        Some((Range { msb, lsb }, p6 + 1))
                    } else {
                        None
                    }
                },
            }
        },
    }
}

/// Reads a greedy run of dimension tokens.
fn parse_ranges(chars: &Vec<char>, pos: usize) -> (r: (Vec<Range>, usize))
    requires
        pos <= chars@.len(),
    ensures
        spec_ranges(chars@, pos as int) == (r.0@, r.1 as int),
        pos <= r.1 <= chars@.len(),
    decreases chars@.len() - pos,
{
    let p1 = skip_ws(chars, pos);
    match parse_range(chars, p1) {
        Some((rg, p2)) => {
            let (mut rest, p3) = parse_ranges(chars, p2);
            rest.insert(0, rg);
            proof {
                assert(rest@ =~= seq![rg] + rest@.drop_first());
            }
            (rest, p3)
        },
        None => {
            let empty: Vec<Range> = Vec::new();
            proof {
                assert(spec_ranges(chars@, pos as int) == (Seq::<Range>::empty(), pos as int));
            }
            (empty, pos)
        },
    }
}

/// Reads a dimension list: packed tokens, then optionally `$` and unpacked
/// tokens.
fn parse_dims(chars: &Vec<char>, pos: usize) -> (r: Option<((Vec<Range>, Vec<Range>), usize)>)
    requires
        pos <= chars@.len(),
    ensures
        (match r {
            Some(((pk, unp), np)) => spec_dims(chars@, pos as int) == Some(
                ((pk@, unp@), np as int),
            ) && pos <= np <= chars@.len(),
            None => spec_dims(chars@, pos as int) is None,
        }),
{
    let (packed, p1) = parse_ranges(chars, pos);
    let p2 = skip_ws(chars, p1);
    if p2 < chars.len() && chars[p2] == '$' {
        let (unpacked, p3) = parse_ranges(chars, p2 + 1);
        if unpacked.len() == 0 {
            None
        } else {
            Some(((packed, unpacked), p3))
        }
    } else {
        let empty: Vec<Range> = Vec::new();
        Some(((packed, empty), p1))
    }
}

/// Reads an explicit `signed`/`unsigned` modifier.
fn parse_signed_mod(chars: &Vec<char>, pos: usize) -> (r: Option<(bool, usize)>)
    requires
        pos <= chars@.len(),
    ensures
        (match r {
            Some((sg, np)) => spec_signed_mod(chars@, pos as int) == Some((sg, np as int)) && pos
                < np <= chars@.len(),
            None => spec_signed_mod(chars@, pos as int) is None,
        }),
{
    proof {
        reveal_strlit("signed");
        reveal_strlit("unsigned");
    }
    let n = chars.len();
    if match_keyword(chars, pos, "signed") {
        assert(pos + 6 <= n);
        Some((true, pos + 6))
    } else if match_keyword(chars, pos, "unsigned") {
        assert(pos + 8 <= n);
        Some((false, pos + 8))
    } else {
        None
    }
}

/// Reads the remainder of a vector type after its keyword.
fn parse_logic_tail(
    chars: &Vec<char>,
    pos: usize,
    extra: Option<Range>,
    dflt: bool,
) -> (r: Option<(Type, usize)>)
    requires
        pos <= chars@.len(),
    ensures
        (match r {
            Some((t, np)) => spec_logic_tail(chars@, pos as int, extra, dflt) == Some(
                (type_view(t), np as int),
            ) && pos <= np <= chars@.len(),
            None => spec_logic_tail(chars@, pos as int, extra, dflt) is None,
        }),
{
    let p1 = skip_ws(chars, pos);
    let (signed, p2) = match parse_signed_mod(chars, p1) {
        Some((sg, q)) => (sg, q),
        None => (dflt, pos),
    };
    let p3 = skip_ws(chars, p2);
    match parse_dims(chars, p3) {
        None => None,
        Some(((packed, unpacked), p4)) => {
            let mut packed = packed;
            match extra {
                Some(rg) => {
                    packed.push(rg);
                },
                None => {},
            }
            let t = Type::Logic { signed, packed_dimensions: packed, unpacked_dimensions: unpacked };
            Some((t, p4))
        },
    }
}

/// Reads a digit run as a `usize`, detecting overflow.
#[verifier::loop_isolation(false)]
fn digits_to_usize(chars: &Vec<char>, from: usize, to: usize) -> (r: Option<usize>)
    requires
        from <= to <= chars@.len(),
        to as int <= digits_end(chars@, from as int),
    ensures
        (match r {
            Some(w) => w == digits_num(chars@, from as int, to as int),
            None => digits_num(chars@, from as int, to as int) > usize::MAX,
        }),
{
    let mut acc: u128 = 0;
    let mut i = from;
    while i < to
        invariant
            from <= i <= to,
            acc == digits_num(chars@, from as int, i as int),
            acc <= usize::MAX as u128,
        decreases to - i,
    {
        proof {
            lemma_digit_run_digits(chars@, from as int, i as int);
            assert(digits_num(chars@, from as int, i + 1) == digits_num(
                chars@,
                from as int,
                i as int,
            ) * 10 + digit_of(chars@[i as int]));
        }
        let d = (chars[i] as u32 - 48) as u128;
        let next = acc * 10 + d;
        if next > usize::MAX as u128 {
            proof {
                lemma_digits_num_mono(chars@, from as int, i + 1, to as int);
            }
            return None;
        }
        acc = next;
        i = i + 1;
    }
    Some(acc as usize)
}

/// Collects the digit values of a digit run.
#[verifier::loop_isolation(false)]
fn digit_vals(chars: &Vec<char>, from: usize, to: usize) -> (r: Vec<u8>)
    requires
        from <= to <= chars@.len(),
        to as int <= digits_end(chars@, from as int),
    ensures
        r@.len() == to - from,
        forall|j: int| 0 <= j < r@.len() ==> r@[j] == digit_of(chars@[from + j]),
        forall|j: int| 0 <= j < r@.len() ==> r@[j] < 10,
{
    let mut r: Vec<u8> = Vec::new();
    let mut i = from;
    while i < to
        invariant
            from <= i <= to,
            r@.len() == i - from,
            forall|j: int| 0 <= j < r@.len() ==> r@[j] == digit_of(chars@[from + j]),
            forall|j: int| 0 <= j < r@.len() ==> r@[j] < 10,
        decreases to - i,
    {
        proof {
            lemma_digit_run_digits(chars@, from as int, i as int);
        }
        let d = (chars[i] as u32 - 48) as u8;
        r.push(d);
        i = i + 1;
    }
    r
}

/// Reads one `name=width'd magnitude` variant.
fn parse_variant(txt: &str, chars: &Vec<char>, pos: usize) -> (r: Option<(Variant, usize)>)
    requires
        txt@ == chars@,
        pos <= chars@.len(),
    ensures
        (match r {
            Some((v, np)) => spec_variant(chars@, pos as int) == Some((variant_view(v), np as int))
                && pos < np <= chars@.len() && v.value.wf(),
            None => spec_variant(chars@, pos as int) is None,
        }),
{
    let (name, e) = match parse_ident(txt, chars, pos) {
        None => {
            return None;
        },
        Some(x) => x,
    };
    let p1 = skip_ws(chars, e);
    if !(p1 < chars.len() && chars[p1] == '=') {
        return None;
    }
    let p2 = skip_ws(chars, p1 + 1);
    let neg = p2 < chars.len() && chars[p2] == '-';
    let d0 = if neg {
        p2 + 1
    } else {
        p2
    };
    let wend = digit_run(chars, d0);
    if wend == d0 || !(wend < chars.len() && chars[wend] == '\'') {
        return None;
    }
    let width = match digits_to_usize(chars, d0, wend) {
        None => {
            return None;
        },
        Some(w) => w,
    };
    let q = if wend + 1 < chars.len() && chars[wend + 1] == 's' {
        wend + 2
    } else {
        wend + 1
    };
    if !(q < chars.len() && chars[q] == 'd') {
        return None;
    }
    let mend = digit_run(chars, q + 1);
    if mend == q + 1 {
        return None;
    }
    let dv = digit_vals(chars, q + 1, mend);
    proof {
        lemma_digits_val_of_run(dv@, chars@, q + 1, mend as int);
    }
    let value = IntValue::from_digits(neg, dv);
    let v = Variant { name, width, value };
    Some((v, mend))
}

/// Reads a comma-separated list of at least one variant.
fn parse_variants(txt: &str, chars: &Vec<char>, pos: usize) -> (r: Option<(Vec<Variant>, usize)>)
    requires
        txt@ == chars@,
        pos <= chars@.len(),
    ensures
        (match r {
            Some((vs, np)) => spec_variants(chars@, pos as int) == Some(
                (variants_view(vs@), np as int),
            ) && pos < np <= chars@.len(),
            None => spec_variants(chars@, pos as int) is None,
        }),
    decreases chars@.len() - pos,
{
    let p1 = skip_ws(chars, pos);
    let (v, p2) = match parse_variant(txt, chars, p1) {
        None => {
            return None;
        },
        Some(x) => x,
    };
    let p3 = skip_ws(chars, p2);
    if p3 < chars.len() && chars[p3] == ',' {
        match parse_variants(txt, chars, p3 + 1) {
            None => None,
            Some((mut rest, p4)) => {
                let ghost old_rest = rest@;
                rest.insert(0, v);
                proof {
                    assert(rest@ =~= seq![v] + old_rest);
                    lemma_variants_view(rest@);
                    lemma_variants_view(old_rest);
                    assert(variants_view(rest@) =~= seq![variant_view(v)] + variants_view(
                        old_rest,
                    ));
                }
                Some((rest, p4))
            },
        }
    } else {
        let mut vs: Vec<Variant> = Vec::new();
        vs.push(v);
        proof {
            assert(vs@.len() == 1);
            assert(vs@.last() == v);
            assert(vs@.drop_last() =~= Seq::<Variant>::empty());
            assert(variants_view(Seq::<Variant>::empty()) =~= Seq::<VariantV>::empty());
            assert(variants_view(vs@) =~= seq![variant_view(v)]);
        }
        Some((vs, p2))
    }
}

/// Reads the remainder of an enum type after the `enum` keyword.
fn parse_enum_tail(txt: &str, chars: &Vec<char>, pos: usize) -> (r: Option<(Type, usize)>)
    requires
        txt@ == chars@,
        pos <= chars@.len(),
    ensures
        (match r {
            Some((t, np)) => spec_enum_tail(chars@, pos as int) == Some((type_view(t), np as int))
                && pos <= np <= chars@.len(),
            None => spec_enum_tail(chars@, pos as int) is None,
        }),
{
    let p1 = skip_ws(chars, pos);
    if !(p1 < chars.len() && chars[p1] == '{') {
        return None;
    }
    let (variants, p2) = match parse_variants(txt, chars, p1 + 1) {
        None => {
            return None;
        },
        Some(x) => x,
    };
    let p3 = skip_ws(chars, p2);
    if !(p3 < chars.len() && chars[p3] == '}') {
        return None;
    }
    let p4 = skip_ws(chars, p3 + 1);
    let (name, p5) = match parse_full_ident(txt, chars, p4) {
        Some(x) => x,
        None => (String::new(), p4),
    };
    let p6 = skip_ws(chars, p5);
    match parse_dims(chars, p6) {
        None => None,
        Some(((packed, unpacked), p7)) => {
            let t = Type::Enum {
                name,
                variants,
                packed_dimensions: packed,
                unpacked_dimensions: unpacked,
            };
            Some((t, p7))
        },
    }
}

/// Reads a whole type, dispatching on its leading keyword.
fn parse_type(txt: &str, chars: &Vec<char>, pos: usize) -> (r: Option<(Type, usize)>)
    requires
        txt@ == chars@,
        pos <= chars@.len(),
    ensures
        (match r {
            Some((t, np)) => spec_type(chars@, pos as int) == Some((type_view(t), np as int))
                && pos < np <= chars@.len(),
            None => spec_type(chars@, pos as int) is None,
        }),
    decreases chars@.len() - pos, 1int,
{
    proof {
        reveal_strlit("logic");
        reveal_strlit("bit");
        reveal_strlit("struct");
        reveal_strlit("union");
        reveal_strlit("enum");
        reveal_strlit("longint");
        reveal_strlit("int");
    }
    let n = chars.len();
    if match_keyword(chars, pos, "logic") {
        assert(pos + 5 <= n);
        parse_logic_tail(chars, pos + 5, None, false)
    } else if match_keyword(chars, pos, "bit") {
        assert(pos + 3 <= n);
        parse_logic_tail(chars, pos + 3, None, false)
    } else if match_keyword(chars, pos, "struct") {
        assert(pos + 6 <= n);
        parse_su_tail(txt, chars, pos + 6, false)
    } else if match_keyword(chars, pos, "union") {
        assert(pos + 5 <= n);
        parse_su_tail(txt, chars, pos + 5, true)
    } else if match_keyword(chars, pos, "enum") {
        assert(pos + 4 <= n);
        parse_enum_tail(txt, chars, pos + 4)
    } else if match_keyword(chars, pos, "longint") {
        assert(pos + 7 <= n);
        parse_logic_tail(chars, pos + 7, Some(Range { msb: 63, lsb: 0 }), true)
    } else if match_keyword(chars, pos, "int") {
        assert(pos + 3 <= n);
        parse_logic_tail(chars, pos + 3, Some(Range { msb: 31, lsb: 0 }), true)
    } else {
        None
    }
}

/// Reads the remainder of a struct or union type after its keyword.
fn parse_su_tail(txt: &str, chars: &Vec<char>, pos: usize, is_union: bool) -> (r: Option<
    (Type, usize),
>)
    requires
        txt@ == chars@,
        pos <= chars@.len(),
    ensures
        (match r {
            Some((t, np)) => spec_su_tail(chars@, pos as int, is_union) == Some(
                (type_view(t), np as int),
            ) && pos <= np <= chars@.len(),
            None => spec_su_tail(chars@, pos as int, is_union) is None,
        }),
    decreases chars@.len() - pos, 3int,
{
    proof {
        reveal_strlit("packed");
    }
    let n = chars.len();
    let p1 = skip_ws(chars, pos);
    let p2 = if match_keyword(chars, p1, "packed") {
        assert(p1 + 6 <= n);
        skip_ws(chars, p1 + 6)
    } else {
        p1
    };
    if !(p2 < chars.len() && chars[p2] == '{') {
        return None;
    }
    let (fields, p3) = parse_fields(txt, chars, p2 + 1);
    let p4 = skip_ws(chars, p3);
    if !(p4 < chars.len() && chars[p4] == '}') {
        return None;
    }
    let p5 = skip_ws(chars, p4 + 1);
    let (name, p6) = match parse_full_ident(txt, chars, p5) {
        Some(x) => x,
        None => (String::new(), p5),
    };
    let p7 = skip_ws(chars, p6);
    match parse_dims(chars, p7) {
        None => None,
        Some(((packed, unpacked), p8)) => {
            let t = if is_union {
                Type::Union {
                    name,
                    fields,
                    packed_dimensions: packed,
                    unpacked_dimensions: unpacked,
                }
            } else {
                Type::Struct {
                    name,
                    fields,
                    packed_dimensions: packed,
                    unpacked_dimensions: unpacked,
                }
            };
            Some((t, p8))
        },
    }
}

/// Reads a greedy run of `type name;` members.
fn parse_fields(txt: &str, chars: &Vec<char>, pos: usize) -> (r: (Vec<Field>, usize))
    requires
        txt@ == chars@,
        pos <= chars@.len(),
    ensures
        spec_fields(chars@, pos as int) == Some((fields_view(r.0@), r.1 as int)),
        pos <= r.1 <= chars@.len(),
    decreases chars@.len() - pos, 2int,
{
    let p1 = skip_ws(chars, pos);
    match parse_type(txt, chars, p1) {
        None => {
            let empty: Vec<Field> = Vec::new();
            (empty, pos)
        },
        Some((ty, p2)) => {
            let p3 = skip_ws(chars, p2);
            match parse_ident(txt, chars, p3) {
                None => {
                    let empty: Vec<Field> = Vec::new();
                    (empty, pos)
                },
                Some((name, p4)) => {
                    let p5 = skip_ws(chars, p4);
                    if p5 < chars.len() && chars[p5] == ';' {
                        let (mut rest, p6) = parse_fields(txt, chars, p5 + 1);
                        let f = Field { name, ty };
                        let ghost old_rest = rest@;
                        rest.insert(0, f);
                        proof {
                            assert(rest@ =~= seq![f] + old_rest);
                            lemma_fields_view(rest@);
                            lemma_fields_view(old_rest);
                            assert(fields_view(rest@) =~= seq![field_view(f)] + fields_view(
                                old_rest,
                            ));
                        }
                        (rest, p6)
                    } else {
                        let empty: Vec<Field> = Vec::new();
                        (empty, pos)
                    }
                },
            }
        },
    }
}

/// The whole descriptor: one type, surrounded by optional whitespace,
/// consuming all input.
pub open spec fn spec_descriptor(s: Seq<char>) -> Option<TypeV> {
    let p0 = spec_ws(s, 0);
    match spec_type(s, p0) {
        None => None,
        Some((t, p1)) => {
            if spec_ws(s, p1) == s.len() {
                Some(t)
            } else {
                None
            }
        },
    }
}

/// The failure of a type-descriptor parse, carrying the offending
/// descriptor text. It also covers the `<error>` sentinel the elaborator
/// leaves when its own elaboration of a type failed.
#[derive(Debug, PartialEq, Eq)]
pub struct MalformedTypeDescriptor {
    pub descriptor: String,
}

/// Parses an elaborator type descriptor into a [`Type`].
///
/// Succeeds exactly on the strings of the descriptor grammar
/// ([`spec_descriptor`]); the decoded type is the one the grammar assigns to
/// the text. Any other input, including the `<error>` sentinel, is reported
/// as [`MalformedTypeDescriptor`] carrying the input.
pub fn parse_type_definition(input: &str) -> (r: Result<Type, MalformedTypeDescriptor>)
    ensures
        (match r {
            Ok(t) => spec_descriptor(input@) == Some(type_view(t)),
            Err(e) => spec_descriptor(input@) is None && e.descriptor@ == input@,
        }),
{
    let chars = chars_of(input);
    let p0 = skip_ws(&chars, 0);
    match parse_type(input, &chars, p0) {
        None => Err(MalformedTypeDescriptor { descriptor: String::from_str(input) }),
        Some((t, np)) => {
            let p1 = skip_ws(&chars, np);
            if p1 == chars.len() {
                Ok(t)
            } else {
                Err(MalformedTypeDescriptor { descriptor: String::from_str(input) })
            }
        },
    }
}

} // verus!
