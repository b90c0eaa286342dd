//! Decoding of ROS1 serialized messages against their definitions.
//!
//! A decoded message is a flat list of tokens in document order: an
//! `Object(n)` token is followed by `n` pairs of a `Key` and the key's value,
//! an `Array(n)` token by `n` values.

use vstd::prelude::*;
use vstd::string::StringExecFns;
use vstd::utf8::{decode_utf8, valid_utf8};
use crate::decode::{spec_str_at, u16_at, u32_at, u64_at, utf8_str};
use crate::error::{Error, Result};
use crate::ros1::reader::{f32_bits_finite, f64_bits_finite, RosReader};
use crate::ros1::schema::{
    normalize_type_name, parse_ros1_definitions, spec_definitions, spec_lookup, spec_normalize,
    FieldView, RosArray, RosDefinitions, RosField, RosType, TypeView,
};
use crate::types::Schema;

verus! {

/// One token of a decoded message.
#[derive(Debug, Clone, PartialEq, Eq)]
pub enum RosToken {
    /// A float that is not finite.
    Null,
    Bool(bool),
    Int(i64),
    UInt(u64),
    /// A finite `f32`, by its bit pattern.
    F32(u32),
    /// A finite `f64`, by its bit pattern.
    F64(u64),
    Str(String),
    /// A `time` or `duration`: seconds and nanoseconds.
    Time(u32, u32),
    /// An array of the given number of values.
    Array(usize),
    /// A message of the given number of fields.
    Object(usize),
    /// The name of the field whose value follows.
    Key(String),
}

/// The abstract value of a token: strings as characters.
pub enum TokenView {
    Null,
    Bool(bool),
    Int(i64),
    UInt(u64),
    F32(u32),
    F64(u64),
    Str(Seq<char>),
    Time(u32, u32),
    Array(usize),
    Object(usize),
    Key(Seq<char>),
}

impl View for RosToken {
    type V = TokenView;

    open spec fn view(&self) -> TokenView {
        match self {
            RosToken::Null => TokenView::Null,
            RosToken::Bool(b) => TokenView::Bool(*b),
            RosToken::Int(v) => TokenView::Int(*v),
            RosToken::UInt(v) => TokenView::UInt(*v),
            RosToken::F32(b) => TokenView::F32(*b),
            RosToken::F64(b) => TokenView::F64(*b),
            RosToken::Str(s) => TokenView::Str(s@),
            RosToken::Time(s, n) => TokenView::Time(*s, *n),
            RosToken::Array(n) => TokenView::Array(*n),
            RosToken::Object(n) => TokenView::Object(*n),
            RosToken::Key(k) => TokenView::Key(k@),
        }
    }
}

/// The abstract value of a token list.
pub open spec fn tokens_view(t: Seq<RosToken>) -> Seq<TokenView> {
    t.map_values(|x: RosToken| x@)
}

/// A decoded piece: its tokens and the position after it.
pub type Decoded = Option<(Seq<TokenView>, int)>;

/// One value of type `ty` at `pos`. A nested message spends one unit of
/// `fuel`; with none left the value is refused.
pub open spec fn spec_item(defs: Seq<(Seq<char>, Seq<FieldView>)>, ty: TypeView, d: Seq<u8>, pos: int, fuel: nat) -> Decoded
    decreases fuel, 0int, 0int,
{
    match ty {
        TypeView::Bool => if pos + 1 <= d.len() { Some((seq![TokenView::Bool(d[pos] != 0)], pos + 1)) } else { None },
        TypeView::I8 => if pos + 1 <= d.len() { Some((seq![TokenView::Int(d[pos] as i8 as i64)], pos + 1)) } else { None },
        TypeView::U8 => if pos + 1 <= d.len() { Some((seq![TokenView::UInt(d[pos] as u64)], pos + 1)) } else { None },
        TypeView::I16 => if pos + 2 <= d.len() { Some((seq![TokenView::Int(u16_at(d, pos) as i16 as i64)], pos + 2)) } else { None },
        TypeView::U16 => if pos + 2 <= d.len() { Some((seq![TokenView::UInt(u16_at(d, pos) as u64)], pos + 2)) } else { None },
        TypeView::I32 => if pos + 4 <= d.len() { Some((seq![TokenView::Int(u32_at(d, pos) as i32 as i64)], pos + 4)) } else { None },
        TypeView::U32 => if pos + 4 <= d.len() { Some((seq![TokenView::UInt(u32_at(d, pos) as u64)], pos + 4)) } else { None },
        TypeView::I64 => if pos + 8 <= d.len() { Some((seq![TokenView::Int(u64_at(d, pos) as i64)], pos + 8)) } else { None },
        TypeView::U64 => if pos + 8 <= d.len() { Some((seq![TokenView::UInt(u64_at(d, pos))], pos + 8)) } else { None },
        TypeView::F32 => if pos + 4 <= d.len() {
            let b = u32_at(d, pos);
            Some((seq![if f32_bits_finite(b) { TokenView::F32(b) } else { TokenView::Null }], pos + 4))
        } else {
            None
        },
        TypeView::F64 => if pos + 8 <= d.len() {
            let b = u64_at(d, pos);
            Some((seq![if f64_bits_finite(b) { TokenView::F64(b) } else { TokenView::Null }], pos + 8))
        } else {
            None
        },
        TypeView::String => match spec_str_at(d, pos) {
            Some((s, p)) => Some((seq![TokenView::Str(s)], p)),
            None => None,
        },
        TypeView::Time | TypeView::Duration => if pos + 8 <= d.len() {
            Some((seq![TokenView::Time(u32_at(d, pos), u32_at(d, pos + 4))], pos + 8))
        } else {
            None
        },
        TypeView::Named(n) => if fuel == 0 { None } else { spec_message(defs, n, d, pos, (fuel - 1) as nat) },
    }
}

/// The two's-complement value of an unsigned `bits`-bit value `u`.
pub open spec fn twos_complement(u: int, bits: nat) -> int {
    if u < pow2(bits) / 2 { u } else { u - pow2(bits) }
}

/// Two to the power `n`.
pub open spec fn pow2(n: nat) -> int
    decreases n,
{
    if n == 0 { 1 } else { 2 * pow2((n - 1) as nat) }
}

/// Integer fields decode to the value of their little-endian bytes: an
/// unsigned field to that value, a signed one to its two's-complement value,
/// which lies in the signed range of its width; each takes its width in
/// bytes, and a field that runs past the data does not decode.
pub proof fn lemma_int_items(defs: Seq<(Seq<char>, Seq<FieldView>)>, d: Seq<u8>, pos: int, fuel: nat)
    requires
        0 <= pos,
    ensures
        pos + 1 <= d.len() ==> spec_item(defs, TypeView::I8, d, pos, fuel) == Some((seq![TokenView::Int(
            twos_complement(d[pos] as int, 8) as i64)], pos + 1)),
        pos + 1 <= d.len() ==> spec_item(defs, TypeView::U8, d, pos, fuel) == Some((seq![TokenView::UInt(d[pos] as u64)], pos + 1)),
        pos + 2 <= d.len() ==> spec_item(defs, TypeView::I16, d, pos, fuel) == Some((seq![TokenView::Int(
            twos_complement(u16_at(d, pos) as int, 16) as i64)], pos + 2)),
        pos + 2 <= d.len() ==> spec_item(defs, TypeView::U16, d, pos, fuel) == Some((seq![TokenView::UInt(
            u16_at(d, pos) as u64)], pos + 2)),
        pos + 4 <= d.len() ==> spec_item(defs, TypeView::I32, d, pos, fuel) == Some((seq![TokenView::Int(
            twos_complement(u32_at(d, pos) as int, 32) as i64)], pos + 4)),
        pos + 4 <= d.len() ==> spec_item(defs, TypeView::U32, d, pos, fuel) == Some((seq![TokenView::UInt(
            u32_at(d, pos) as u64)], pos + 4)),
        pos + 8 <= d.len() ==> spec_item(defs, TypeView::I64, d, pos, fuel) == Some((seq![TokenView::Int(
            twos_complement(u64_at(d, pos) as int, 64) as i64)], pos + 8)),
        pos + 8 <= d.len() ==> spec_item(defs, TypeView::U64, d, pos, fuel) == Some((seq![TokenView::UInt(
            u64_at(d, pos))], pos + 8)),
        -0x80 <= twos_complement(d[pos] as int, 8) < 0x80,
        -0x8000 <= twos_complement(u16_at(d, pos) as int, 16) < 0x8000,
        -0x8000_0000 <= twos_complement(u32_at(d, pos) as int, 32) < 0x8000_0000,
        -0x8000_0000_0000_0000 <= twos_complement(u64_at(d, pos) as int, 64) < 0x8000_0000_0000_0000,
        pos + 1 > d.len() ==> spec_item(defs, TypeView::I8, d, pos, fuel) is None,
        pos + 2 > d.len() ==> spec_item(defs, TypeView::I16, d, pos, fuel) is None,
        pos + 4 > d.len() ==> spec_item(defs, TypeView::I32, d, pos, fuel) is None,
        pos + 8 > d.len() ==> spec_item(defs, TypeView::I64, d, pos, fuel) is None,
{
    lemma_pow2_values();
    if pos + 1 <= d.len() {
        let b = d[pos];
        assert(b < 0x80 ==> b as i8 as i64 == b as i64) by (bit_vector);
        assert(b >= 0x80 ==> b as i8 as i64 == (b as i64) - 0x100) by (bit_vector);
    }
    if pos + 2 <= d.len() {
        let x = u16_at(d, pos);
        assert(x < 0x8000 ==> x as i16 as i64 == x as i64) by (bit_vector);
        assert(x >= 0x8000 ==> x as i16 as i64 == (x as i64) - 0x1_0000) by (bit_vector);
    }
    if pos + 4 <= d.len() {
        let x = u32_at(d, pos);
        assert(x < 0x8000_0000 ==> x as i32 as i64 == x as i64) by (bit_vector);
        assert(x >= 0x8000_0000 ==> x as i32 as i64 == (x as i64) - 0x1_0000_0000) by (bit_vector);
    }
    if pos + 8 <= d.len() {
        let x = u64_at(d, pos);
        assert(x < 0x8000_0000_0000_0000 ==> x as i64 as i128 == x as i128) by (bit_vector);
        assert(x >= 0x8000_0000_0000_0000 ==> x as i64 as i128 == (x as i128) - 0x1_0000_0000_0000_0000) by (bit_vector);
    }
}

proof fn lemma_pow2_values()
    ensures
        pow2(8) == 0x100,
        pow2(16) == 0x1_0000,
        pow2(32) == 0x1_0000_0000,
        pow2(64) == 0x1_0000_0000_0000_0000,
{
    reveal_with_fuel(pow2, 65);
}

/// `count` values of type `ty` in a row, starting at `pos`.
pub open spec fn spec_items(defs: Seq<(Seq<char>, Seq<FieldView>)>, ty: TypeView, count: nat, d: Seq<u8>, pos: int, fuel: nat) -> Decoded
    decreases fuel, 1int, count,
{
    if count == 0 {
        Some((Seq::empty(), pos))
    } else {
        match spec_items(defs, ty, (count - 1) as nat, d, pos, fuel) {
            None => None,
            Some((t, p)) => match spec_item(defs, ty, d, p, fuel) {
                None => None,
                Some((t2, p2)) => Some((t + t2, p2)),
            },
        }
    }
}

/// The value of one field at `pos`: one value, or an `Array` token and the
/// values (a `Variable` array is preceded by its `u32` count).
pub open spec fn spec_field(defs: Seq<(Seq<char>, Seq<FieldView>)>, f: FieldView, d: Seq<u8>, pos: int, fuel: nat) -> Decoded
    decreases fuel, 2int, 0int,
{
    match f.2 {
        RosArray::Single => spec_item(defs, f.1, d, pos, fuel),
        RosArray::Fixed(n) => match spec_items(defs, f.1, n as nat, d, pos, fuel) {
            None => None,
            Some((t, p)) => Some((seq![TokenView::Array(n)] + t, p)),
        },
        RosArray::Variable => if pos + 4 <= d.len() {
            let n = u32_at(d, pos);
            match spec_items(defs, f.1, n as nat, d, pos + 4, fuel) {
                None => None,
                Some((t, p)) => Some((seq![TokenView::Array(n as usize)] + t, p)),
            }
        } else {
            None
        },
    }
}

/// The fields `fs` in a row, each value preceded by a `Key` token.
pub open spec fn spec_fields_at(defs: Seq<(Seq<char>, Seq<FieldView>)>, fs: Seq<FieldView>, d: Seq<u8>, pos: int, fuel: nat) -> Decoded
    decreases fuel, 3int, fs.len(),
{
    if fs.len() == 0 {
        Some((Seq::empty(), pos))
    } else {
        match spec_fields_at(defs, fs.drop_last(), d, pos, fuel) {
            None => None,
            Some((t, p)) => match spec_field(defs, fs.last(), d, p, fuel) {
                None => None,
                Some((t2, p2)) => Some((t + seq![TokenView::Key(fs.last().0)] + t2, p2)),
            },
        }
    }
}

/// The message named `name` at `pos`: an `Object` token and its fields;
/// refused when the definitions lack the name.
pub open spec fn spec_message(defs: Seq<(Seq<char>, Seq<FieldView>)>, name: Seq<char>, d: Seq<u8>, pos: int, fuel: nat) -> Decoded
    decreases fuel, 4int, 0int,
{
    match spec_lookup(defs, name) {
        None => None,
        Some(fs) => match spec_fields_at(defs, fs, d, pos, fuel) {
            None => None,
            Some((t, p)) => Some((seq![TokenView::Object(fs.len() as usize)] + t, p)),
        },
    }
}

/// Once a prefix of the values is refused, so are all of them.
proof fn lemma_items_refused(defs: Seq<(Seq<char>, Seq<FieldView>)>, ty: TypeView, k: nat, m: nat, d: Seq<u8>, pos: int, fuel: nat)
    requires
        k <= m,
        spec_items(defs, ty, k, d, pos, fuel) is None,
    ensures
        spec_items(defs, ty, m, d, pos, fuel) is None,
    decreases m - k,
{
    if k < m {
        lemma_items_refused(defs, ty, k, (m - 1) as nat, d, pos, fuel);
    }
}

/// Once a prefix of the fields is refused, so are all of them.
proof fn lemma_fields_at_refused(defs: Seq<(Seq<char>, Seq<FieldView>)>, fs: Seq<FieldView>, k: int, d: Seq<u8>, pos: int, fuel: nat)
    requires
        0 <= k <= fs.len(),
        spec_fields_at(defs, fs.take(k), d, pos, fuel) is None,
    ensures
        spec_fields_at(defs, fs, d, pos, fuel) is None,
    decreases fs.len() - k,
{
    if k < fs.len() {
        assert(fs.take(k + 1).drop_last() =~= fs.take(k));
        lemma_fields_at_refused(defs, fs, k + 1, d, pos, fuel);
    } else {
        assert(fs.take(k) =~= fs);
    }
}

/// Append one token.
fn emit(out: &mut Vec<RosToken>, t: RosToken)
    ensures
        tokens_view(final(out)@) == tokens_view(old(out)@) + seq![t@],
{
    out.push(t);
    assert(tokens_view(out@) =~= tokens_view(old(out)@) + seq![t@]);
}

/// Decode one value of type `ty` (the element decoder of a field).
fn parse_item(defs: &RosDefinitions, ty: &RosType, reader: &mut RosReader, out: &mut Vec<RosToken>, fuel: u64)
    -> (r: Result<()>)
    requires
        defs.well_formed(),
        old(reader).well_formed(),
    ensures
        final(reader).data() == old(reader).data(),
        final(reader).well_formed(),
        match r {
            Ok(_) => (spec_item(defs@, ty@, old(reader).data(), old(reader).pos(), fuel as nat) matches Some((t, p))
                && tokens_view(final(out)@) == tokens_view(old(out)@) + t && final(reader).pos() == p),
            Err(e) => spec_item(defs@, ty@, old(reader).data(), old(reader).pos(), fuel as nat) is None
                && e is InvalidRecord,
        },
    decreases fuel, 0int,
{
    match ty {
        RosType::Bool => match reader.read_bool() {
            Ok(v) => { emit(out, RosToken::Bool(v)); Ok(()) },
            Err(e) => Err(e),
        },
        RosType::I8 => match reader.read_i8() {
            Ok(v) => { emit(out, RosToken::Int(v as i64)); Ok(()) },
            Err(e) => Err(e),
        },
        RosType::U8 => match reader.read_u8() {
            Ok(v) => { emit(out, RosToken::UInt(v as u64)); Ok(()) },
            Err(e) => Err(e),
        },
        RosType::I16 => match reader.read_i16() {
            Ok(v) => { emit(out, RosToken::Int(v as i64)); Ok(()) },
            Err(e) => Err(e),
        },
        RosType::U16 => match reader.read_u16() {
            Ok(v) => { emit(out, RosToken::UInt(v as u64)); Ok(()) },
            Err(e) => Err(e),
        },
        RosType::I32 => match reader.read_i32() {
            Ok(v) => { emit(out, RosToken::Int(v as i64)); Ok(()) },
            Err(e) => Err(e),
        },
        RosType::U32 => match reader.read_u32() {
            Ok(v) => { emit(out, RosToken::UInt(v as u64)); Ok(()) },
            Err(e) => Err(e),
        },
        RosType::I64 => match reader.read_i64() {
            Ok(v) => { emit(out, RosToken::Int(v)); Ok(()) },
            Err(e) => Err(e),
        },
        RosType::U64 => match reader.read_u64() {
            Ok(v) => { emit(out, RosToken::UInt(v)); Ok(()) },
            Err(e) => Err(e),
        },
        RosType::F32 => match reader.read_f32() {
            Ok(Some(b)) => { emit(out, RosToken::F32(b)); Ok(()) },
            Ok(None) => { emit(out, RosToken::Null); Ok(()) },
            Err(e) => Err(e),
        },
        RosType::F64 => match reader.read_f64() {
            Ok(Some(b)) => { emit(out, RosToken::F64(b)); Ok(()) },
            Ok(None) => { emit(out, RosToken::Null); Ok(()) },
            Err(e) => Err(e),
        },
        RosType::String => match reader.read_string() {
            Ok(s) => { emit(out, RosToken::Str(s)); Ok(()) },
            Err(e) => Err(e),
        },
        RosType::Time | RosType::Duration => {
            let secs = match reader.read_u32() {
                Ok(v) => v,
                Err(e) => return Err(e),
            };
            let nsecs = match reader.read_u32() {
                Ok(v) => v,
                Err(e) => return Err(e),
            };
            emit(out, RosToken::Time(secs, nsecs));
            Ok(())
        },
        RosType::Named(n) => {
            if fuel == 0 {
                return Err(Error::InvalidRecord("ROS1 message nesting does not end".to_owned()));
            }
            parse_ros1_message(defs, n.as_str(), reader, out, fuel - 1)
        },
    }
}

/// Decode the value of `field`: one value, or an array of a fixed or a
/// counted number of values.
fn parse_ros1_field(defs: &RosDefinitions, field: &RosField, reader: &mut RosReader, out: &mut Vec<RosToken>, fuel: u64)
    -> (r: Result<()>)
    requires
        defs.well_formed(),
        old(reader).well_formed(),
    ensures
        final(reader).data() == old(reader).data(),
        final(reader).well_formed(),
        match r {
            Ok(_) => (spec_field(defs@, field@, old(reader).data(), old(reader).pos(), fuel as nat) matches Some((t, p))
                && tokens_view(final(out)@) == tokens_view(old(out)@) + t && final(reader).pos() == p),
            Err(e) => spec_field(defs@, field@, old(reader).data(), old(reader).pos(), fuel as nat) is None
                && e is InvalidRecord,
        },
    decreases fuel, 1int,
{
    let ghost d = reader.data();
    let count: usize = match field.array {
        RosArray::Single => {
            return parse_item(defs, &field.ty, reader, out, fuel);
        },
        RosArray::Fixed(len) => len,
        RosArray::Variable => match reader.read_u32() {
            Ok(n) => n as usize,
            Err(e) => return Err(e),
        },
    };
    let ghost p0 = reader.pos();
    emit(out, RosToken::Array(count));
    let ghost prefix = tokens_view(out@);
    let ghost mut acc: Seq<TokenView> = Seq::empty();
    let mut i: usize = 0;
    while i < count
        invariant
            defs.well_formed(),
            reader.well_formed(),
            reader.data() == d,
            d == old(reader).data(),
            !(field.array is Single),
            field.array matches RosArray::Fixed(len) ==> count == len && p0 == old(reader).pos(),
            field.array is Variable ==> old(reader).pos() + 4 <= d.len()
                && count == u32_at(d, old(reader).pos()) as usize && p0 == old(reader).pos() + 4,
            prefix == tokens_view(old(out)@) + seq![TokenView::Array(count)],
            i <= count,
            spec_items(defs@, field.ty@, i as nat, d, p0, fuel as nat) == Some((acc, reader.pos())),
            tokens_view(out@) == prefix + acc,
        decreases count - i,
    {
        let ghost before = tokens_view(out@);
        match parse_item(defs, &field.ty, reader, out, fuel) {
            Ok(_) => {
                proof {
                    let t = spec_item(defs@, field.ty@, d, spec_items(defs@, field.ty@, i as nat, d, p0, fuel as nat)->Some_0.1, fuel as nat)->Some_0.0;
                    assert(tokens_view(out@) =~= prefix + (acc + t));
                    acc = acc + t;
                }
            },
            Err(e) => {
                proof { lemma_items_refused(defs@, field.ty@, (i + 1) as nat, count as nat, d, p0, fuel as nat); }
                return Err(e);
            },
        }
        i += 1;
    }
    Ok(())
}

/// Decode the message named `name`: an `Object` token, then each field's
/// name and value. Each nested message spends one unit of `fuel`.
pub fn parse_ros1_message(defs: &RosDefinitions, name: &str, reader: &mut RosReader, out: &mut Vec<RosToken>, fuel: u64)
    -> (r: Result<()>)
    requires
        defs.well_formed(),
        old(reader).well_formed(),
    ensures
        final(reader).data() == old(reader).data(),
        final(reader).well_formed(),
        match r {
            Ok(_) => (spec_message(defs@, name@, old(reader).data(), old(reader).pos(), fuel as nat) matches Some((t, p))
                && tokens_view(final(out)@) == tokens_view(old(out)@) + t && final(reader).pos() == p),
            Err(e) => spec_message(defs@, name@, old(reader).data(), old(reader).pos(), fuel as nat) is None
                && e is InvalidRecord,
        },
    decreases fuel, 2int,
{
    let key = name.to_owned();
    let message = match defs.get(&key) {
        Some(m) => m,
        None => {
            let mut msg = String::from_str("ROS1 schema missing message ");
            msg.append(name);
            return Err(Error::InvalidRecord(msg));
        },
    };
    let ghost d = reader.data();
    let ghost p0 = reader.pos();
    let ghost fs = message@;
    let n = message.fields.len();
    emit(out, RosToken::Object(n));
    let ghost prefix = tokens_view(out@);
    let ghost mut acc: Seq<TokenView> = Seq::empty();
    let mut k: usize = 0;
    assert(fs.take(0) =~= Seq::<FieldView>::empty());
    while k < n
        invariant
            defs.well_formed(),
            reader.well_formed(),
            reader.data() == d,
            d == old(reader).data(),
            p0 == old(reader).pos(),
            spec_lookup(defs@, name@) == Some(fs),
            prefix == tokens_view(old(out)@) + seq![TokenView::Object(n)],
            n == message.fields@.len(),
            fs == message@,
            k <= n,
            spec_fields_at(defs@, fs.take(k as int), d, p0, fuel as nat) == Some((acc, reader.pos())),
            tokens_view(out@) == prefix + acc,
        decreases n - k,
    {
        let field = &message.fields[k];
        assert(fs[k as int] == field@);
        assert(fs.take(k + 1).drop_last() =~= fs.take(k as int));
        assert(fs.take(k + 1).last() == field@);
        emit(out, RosToken::Key(field.name.clone()));
        match parse_ros1_field(defs, field, reader, out, fuel) {
            Ok(_) => {
                proof {
                    let t = spec_field(defs@, field@, d, spec_fields_at(defs@, fs.take(k as int), d, p0, fuel as nat)->Some_0.1, fuel as nat)->Some_0.0;
                    assert(tokens_view(out@) =~= prefix + (acc + seq![TokenView::Key(field.name@)] + t));
                    acc = acc + seq![TokenView::Key(field.name@)] + t;
                }
            },
            Err(e) => {
                proof { lemma_fields_at_refused(defs@, fs, k + 1, d, p0, fuel as nat); }
                return Err(e);
            },
        }
        k += 1;
    }
    assert(fs.take(n as int) =~= fs);
    Ok(())
}

/// The nesting budget for decoding `len` bytes against `n` definitions:
/// a decoding that terminates never visits the same message at the same
/// position twice on one path, so it nests at most `(n + 1) * (len + 1)`
/// deep (capped at `u64::MAX`).
pub open spec fn decode_fuel(n: nat, len: nat) -> nat {
    if (n + 1) * (len + 1) <= u64::MAX { ((n + 1) * (len + 1)) as nat } else { u64::MAX as nat }
}

/// A decoder for messages of one ROS1 schema.
pub struct Ros1SchemaParser {
    root_type: String,
    messages: RosDefinitions,
}

impl Ros1SchemaParser {
    /// The full name of the schema's message type.
    pub closed spec fn root_type(&self) -> Seq<char> {
        self.root_type@
    }

    /// The message definitions.
    pub closed spec fn messages(&self) -> Seq<(Seq<char>, Seq<FieldView>)> {
        self.messages@
    }

    /// The definitions hold no name twice.
    pub closed spec fn well_formed(&self) -> bool {
        self.messages.well_formed()
    }

    /// A decoder for `schema`, whose data is a ROS1 definition in UTF-8.
    /// Refused when the data is not UTF-8 or a field line is malformed.
    pub fn from_schema(schema: &Schema) -> (r: Result<Ros1SchemaParser>)
        ensures
            match r {
                Ok(p) => valid_utf8(schema.data@)
                    && spec_definitions(decode_utf8(schema.data@), schema.name@) == Some(p.messages())
                    && p.root_type() == spec_normalize(schema.name@, schema.name@)
                    && p.well_formed(),
                Err(e) => (!valid_utf8(schema.data@)
                    || spec_definitions(decode_utf8(schema.data@), schema.name@) is None)
                    && e is InvalidRecord,
            },
    {
        let text = match utf8_str(schema.data.as_slice()) {
            Some(t) => t,
            None => return Err(Error::InvalidRecord("invalid utf-8 in ROS1 schema".to_owned())),
        };
        let root_type = normalize_type_name(schema.name.as_str(), schema.name.as_str());
        match parse_ros1_definitions(text, schema.name.as_str()) {
            Ok(messages) => Ok(Ros1SchemaParser { root_type, messages }),
            Err(e) => Err(e),
        }
    }

    /// Decode one serialized message of the root type into tokens.
    pub fn parse_json(&self, data: &[u8]) -> (r: Result<Vec<RosToken>>)
        requires
            self.well_formed(),
        ensures
            match r {
                Ok(t) => (spec_message(self.messages(), self.root_type(), data@, 0,
                    decode_fuel(self.messages().len(), data@.len())) matches Some((tv, p)) && tokens_view(t@) == tv),
                Err(e) => spec_message(self.messages(), self.root_type(), data@, 0,
                    decode_fuel(self.messages().len(), data@.len())) is None && e is InvalidRecord,
            },
    {
        let n = self.messages.len() as u64;
        let len = data.len() as u64;
        let fuel: u64 = if n < u64::MAX && len < u64::MAX {
            match (n + 1).checked_mul(len + 1) {
                Some(f) => f,
                None => u64::MAX,
            }
        } else {
            u64::MAX
        };
        proof {
            if n == u64::MAX || len == u64::MAX {
                assert((n + 1) * (len + 1) >= n + 1) by (nonlinear_arith)
                    requires len >= 0;
                assert((n + 1) * (len + 1) >= len + 1) by (nonlinear_arith)
                    requires n >= 0;
            }
        }
        let mut reader = RosReader::new(data);
        let mut out: Vec<RosToken> = Vec::new();
        match parse_ros1_message(&self.messages, self.root_type.as_str(), &mut reader, &mut out, fuel) {
            Ok(_) => {
                assert(tokens_view(Seq::<RosToken>::empty()) =~= Seq::<TokenView>::empty());
                assert(tokens_view(out@) =~= Seq::<TokenView>::empty() + tokens_view(out@));
                Ok(out)
            },
            Err(e) => Err(e),
        }
    }
}

/// What every decoded piece satisfies: it ends at or after where it began,
/// and not past the end of the bytes.
pub open spec fn advances(r: Decoded, d: Seq<u8>, pos: int) -> bool {
    r matches Some((t, p)) ==> pos <= p <= d.len()
}

proof fn lemma_item_advances(defs: Seq<(Seq<char>, Seq<FieldView>)>, ty: TypeView, d: Seq<u8>, pos: int, fuel: nat)
    requires
        0 <= pos <= d.len(),
    ensures
        advances(spec_item(defs, ty, d, pos, fuel), d, pos),
    decreases fuel, 0int, 0int,
{
    match ty {
        TypeView::Named(n) => {
            if fuel > 0 {
                lemma_message_advances(defs, n, d, pos, (fuel - 1) as nat);
            }
        },
        _ => {},
    }
}

proof fn lemma_items_advance(defs: Seq<(Seq<char>, Seq<FieldView>)>, ty: TypeView, count: nat, d: Seq<u8>, pos: int, fuel: nat)
    requires
        0 <= pos <= d.len(),
    ensures
        advances(spec_items(defs, ty, count, d, pos, fuel), d, pos),
    decreases fuel, 1int, count,
{
    if count > 0 {
        lemma_items_advance(defs, ty, (count - 1) as nat, d, pos, fuel);
        if let Some((t, p)) = spec_items(defs, ty, (count - 1) as nat, d, pos, fuel) {
            lemma_item_advances(defs, ty, d, p, fuel);
        }
    }
}

proof fn lemma_field_advances(defs: Seq<(Seq<char>, Seq<FieldView>)>, f: FieldView, d: Seq<u8>, pos: int, fuel: nat)
    requires
        0 <= pos <= d.len(),
    ensures
        advances(spec_field(defs, f, d, pos, fuel), d, pos),
    decreases fuel, 2int, 0int,
{
    match f.2 {
        RosArray::Single => lemma_item_advances(defs, f.1, d, pos, fuel),
        RosArray::Fixed(n) => lemma_items_advance(defs, f.1, n as nat, d, pos, fuel),
        RosArray::Variable => {
            if pos + 4 <= d.len() {
                lemma_items_advance(defs, f.1, u32_at(d, pos) as nat, d, pos + 4, fuel);
            }
        },
    }
}

proof fn lemma_fields_at_advance(defs: Seq<(Seq<char>, Seq<FieldView>)>, fs: Seq<FieldView>, d: Seq<u8>, pos: int, fuel: nat)
    requires
        0 <= pos <= d.len(),
    ensures
        advances(spec_fields_at(defs, fs, d, pos, fuel), d, pos),
    decreases fuel, 3int, fs.len(),
{
    if fs.len() > 0 {
        lemma_fields_at_advance(defs, fs.drop_last(), d, pos, fuel);
        if let Some((t, p)) = spec_fields_at(defs, fs.drop_last(), d, pos, fuel) {
            lemma_field_advances(defs, fs.last(), d, p, fuel);
        }
    }
}

/// Decoding a message never moves backward nor reads past the end of the
/// bytes, and what it gives begins with the message's `Object` token.
pub proof fn lemma_message_advances(defs: Seq<(Seq<char>, Seq<FieldView>)>, name: Seq<char>, d: Seq<u8>, pos: int, fuel: nat)
    requires
        0 <= pos <= d.len(),
    ensures
        advances(spec_message(defs, name, d, pos, fuel), d, pos),
        spec_message(defs, name, d, pos, fuel) matches Some((t, p)) ==> t.len() > 0 && t[0] is Object,
    decreases fuel, 4int, 0int,
{
    if let Some(fs) = spec_lookup(defs, name) {
        lemma_fields_at_advance(defs, fs, d, pos, fuel);
    }
}

} // verus!
