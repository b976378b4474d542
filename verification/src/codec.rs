//! The prefab text codec. The wire form is UTF-8 text: an outer map from
//! decimal entity ids to an inner map from quoted type names to the value's
//! fields, each a quoted path and a decimal datum. Numbers are fixed-width
//! decimal (zero-padded), which keeps the grammar regular; `@` marks an
//! entity reference, a sign marks plain integer data.
//!
//! Both directions are stated as pure functions over byte sequences
//! ([`encode_spec`], [`decode_spec`]) and the executable codec is proved to
//! compute them; decoding an encoded prefab gives the prefab back
//! ([`lemma_decode_encode`]).
use crate::asset::PrefabEntityModel;
use crate::registry::{reg_get, RegistrationModel};
use crate::value::{FieldData, FieldModel, Value, ValueModel};
use vstd::arithmetic::div_mod::{lemma_div_pos_is_pos, lemma_fundamental_div_mod};
use vstd::prelude::*;

verus! {

/// Why decoding failed: a type name with no registry entry, or bytes that
/// do not follow the grammar.
#[derive(Debug)]
pub enum DecodeError {
    UnknownType { name: Vec<u8> },
    Malformed,
}

/// Mathematical model of a [`DecodeError`].
#[verifier::ext_equal]
pub ghost enum DecodeErrorModel {
    UnknownType { name: Seq<u8> },
    Malformed,
}

impl View for DecodeError {
    type V = DecodeErrorModel;

    open spec fn view(&self) -> DecodeErrorModel {
        match self {
            DecodeError::UnknownType { name } => DecodeErrorModel::UnknownType { name: name@ },
            DecodeError::Malformed => DecodeErrorModel::Malformed,
        }
    }
}

/// Ten to the given power.
pub open spec fn pow10(w: nat) -> int
    decreases w,
{
    if w == 0 {
        1
    } else {
        10 * pow10((w - 1) as nat)
    }
}

/// Whether the byte is a decimal digit.
pub open spec fn is_digit(b: u8) -> bool {
    48 <= b <= 57
}

/// The fixed-width decimal digits of `n`, most significant first.
pub open spec fn digits_of(n: int, w: nat) -> Seq<u8>
    decreases w,
{
    if w == 0 {
        Seq::empty()
    } else {
        digits_of(n / 10, (w - 1) as nat).push((48 + n % 10) as u8)
    }
}

/// `digits_of` yields `w` digit bytes.
pub proof fn lemma_digits_of_wf(n: int, w: nat)
    requires
        n >= 0,
    ensures
        digits_of(n, w).len() == w,
        forall|i: int| 0 <= i < w ==> is_digit(#[trigger] digits_of(n, w)[i]),
    decreases w,
{
    if w > 0 {
        lemma_fundamental_div_mod(n, 10);
        lemma_digits_of_wf(n / 10, (w - 1) as nat);
        assert forall|i: int| 0 <= i < w implies is_digit(#[trigger] digits_of(n, w)[i]) by {
            if i < w - 1 {
                assert(digits_of(n, w)[i] == digits_of(n / 10, (w - 1) as nat)[i]);
            } else {
                assert(digits_of(n, w)[i] == (48 + n % 10) as u8);
            }
        }
    }
}

/// Reading exactly `w` digit bytes at `pos`, most significant first.
pub open spec fn spec_parse_digits(s: Seq<u8>, pos: int, w: nat) -> Option<(int, int)>
    decreases w,
{
    if w == 0 {
        Some((0, pos))
    } else {
        match spec_parse_digits(s, pos, (w - 1) as nat) {
            Some((v, p)) => if 0 <= p < s.len() && is_digit(s[p]) {
                Some((v * 10 + (s[p] - 48), p + 1))
            } else {
                None
            },
            None => None,
        }
    }
}

/// What a successful digit read gives: a value below `pow10(w)` and the
/// position advanced by exactly `w`.
pub proof fn lemma_parse_digits_bound(s: Seq<u8>, pos: int, w: nat)
    ensures
        match spec_parse_digits(s, pos, w) {
            Some((v, p)) => 0 <= v < pow10(w) && p == pos + w && pow10(w) >= 1,
            None => true,
        },
    decreases w,
{
    if w == 0 {
    } else {
        lemma_parse_digits_bound(s, pos, (w - 1) as nat);
        match spec_parse_digits(s, pos, (w - 1) as nat) {
            Some((v, p)) => {
                if 0 <= p < s.len() && is_digit(s[p]) {
                    assert(v * 10 + (s[p] - 48) < pow10(w)) by {
                        assert(v <= pow10((w - 1) as nat) - 1);
                        assert(v * 10 <= (pow10((w - 1) as nat) - 1) * 10) by (nonlinear_arith)
                            requires
                                v <= pow10((w - 1) as nat) - 1,
                        ;
                    }
                }
            },
            None => {},
        }
    }
}

/// Reading back what `digits_of` wrote returns the value written.
pub proof fn lemma_digits_roundtrip(s: Seq<u8>, pos: int, n: int, w: nat)
    requires
        0 <= n < pow10(w),
        0 <= pos,
        pos + w <= s.len(),
        s.subrange(pos, pos + w) == digits_of(n, w),
    ensures
        spec_parse_digits(s, pos, w) == Some((n, pos + w)),
    decreases w,
{
    if w == 0 {
    } else {
        lemma_fundamental_div_mod(n, 10);
        lemma_digits_of_wf(n, w);
        assert(n / 10 < pow10((w - 1) as nat)) by {
            assert(pow10(w) == 10 * pow10((w - 1) as nat));
            assert(n < 10 * pow10((w - 1) as nat));
            assert(n / 10 < pow10((w - 1) as nat)) by (nonlinear_arith)
                requires
                    n >= 0,
                    n < 10 * pow10((w - 1) as nat),
                    pow10((w - 1) as nat) >= 1,
            ;
        }
        assert(n / 10 >= 0) by {
            lemma_div_pos_is_pos(n, 10);
        }
        assert(s.subrange(pos, pos + w - 1) =~= digits_of(n / 10, (w - 1) as nat)) by {
            assert forall|i: int| 0 <= i < w - 1 implies #[trigger] s.subrange(pos, pos + w - 1)[i]
                == digits_of(n / 10, (w - 1) as nat)[i] by {
                assert(s.subrange(pos, pos + w)[i] == digits_of(n, w)[i]);
                assert(digits_of(n, w)[i] == digits_of(n / 10, (w - 1) as nat)[i]);
            }
            lemma_digits_of_wf(n / 10, (w - 1) as nat);
        }
        lemma_digits_roundtrip(s, pos, n / 10, (w - 1) as nat);
        assert(s.subrange(pos, pos + w)[w - 1] == digits_of(n, w)[w - 1]);
        assert(s[pos + w - 1] == (48 + n % 10) as u8);
        assert(spec_parse_digits(s, pos, w) == Some((n, pos + w))) by {
            assert(spec_parse_digits(s, pos, (w - 1) as nat) == Some((n / 10, pos + w - 1)));
            assert(is_digit(s[pos + w - 1]));
            assert((n / 10) * 10 + ((48 + n % 10) - 48) == n);
        }
    }
}

/// The position of the next quote byte at or after `pos`, if any.
pub open spec fn quote_end(s: Seq<u8>, pos: int) -> Option<int>
    decreases s.len() - pos,
{
    if pos < 0 || pos >= s.len() {
        None
    } else if s[pos] == 34 {
        Some(pos)
    } else {
        quote_end(s, pos + 1)
    }
}

/// What `quote_end` returns: the first quote at or after `pos`.
pub proof fn lemma_quote_end(s: Seq<u8>, pos: int)
    requires
        0 <= pos,
    ensures
        match quote_end(s, pos) {
            Some(e) => pos <= e < s.len() && s[e] == 34 && forall|j: int|
                pos <= j < e ==> s[j] != 34,
            None => forall|j: int| pos <= j < s.len() ==> s[j] != 34,
        },
    decreases s.len() - pos,
{
    if pos < s.len() && s[pos] != 34 {
        lemma_quote_end(s, pos + 1);
    }
}

/// A quoted byte string: a quote, bytes up to the next quote, that quote.
pub open spec fn spec_parse_string(s: Seq<u8>, pos: int) -> Option<(Seq<u8>, int)> {
    if 0 <= pos < s.len() && s[pos] == 34 {
        match quote_end(s, pos + 1) {
            Some(e) => Some((s.subrange(pos + 1, e), e + 1)),
            None => None,
        }
    } else {
        None
    }
}

/// The encoded form of a byte string: the bytes between quotes. Only
/// strings without a quote byte are encodable.
pub open spec fn enc_string(b: Seq<u8>) -> Seq<u8> {
    seq![34u8] + b + seq![34u8]
}

/// Whether a byte string can stand between quotes.
pub open spec fn string_encodable(b: Seq<u8>) -> bool {
    forall|i: int| 0 <= i < b.len() ==> b[i] != 34
}

/// Reading back what `enc_string` wrote returns the string written.
pub proof fn lemma_string_roundtrip(s: Seq<u8>, pos: int, b: Seq<u8>)
    requires
        string_encodable(b),
        0 <= pos,
        pos + b.len() + 2 <= s.len(),
        s.subrange(pos, pos + b.len() + 2) == enc_string(b),
    ensures
        spec_parse_string(s, pos) == Some((b, pos + b.len() + 2)),
{
    let e = pos + b.len() + 1;
    assert(s[pos] == 34) by {
        assert(s.subrange(pos, pos + b.len() + 2)[0] == enc_string(b)[0]);
    }
    assert(s[e] == 34) by {
        assert(s.subrange(pos, pos + b.len() + 2)[b.len() as int + 1] == enc_string(b)[b.len()
            as int + 1]);
    }
    assert forall|j: int| pos + 1 <= j < e implies s[j] != 34 by {
        assert(s.subrange(pos, pos + b.len() + 2)[j - pos] == enc_string(b)[j - pos]);
        assert(enc_string(b)[j - pos] == b[j - pos - 1]);
    }
    lemma_quote_end_reaches(s, pos + 1, e);
    assert(s.subrange(pos + 1, e) =~= b) by {
        assert forall|i: int| 0 <= i < b.len() implies s.subrange(pos + 1, e)[i] == b[i] by {
            assert(s.subrange(pos, pos + b.len() + 2)[i + 1] == enc_string(b)[i + 1]);
            assert(enc_string(b)[i + 1] == b[i]);
        }
    }
}

/// `quote_end` lands on `e` when no quote stands before it.
pub proof fn lemma_quote_end_reaches(s: Seq<u8>, pos: int, e: int)
    requires
        0 <= pos <= e < s.len(),
        s[e] == 34,
        forall|j: int| pos <= j < e ==> s[j] != 34,
    ensures
        quote_end(s, pos) == Some(e),
    decreases e - pos,
{
    if pos < e {
        lemma_quote_end_reaches(s, pos + 1, e);
    }
}

/// A span of `s` holding a concatenation splits into spans holding the
/// parts.
pub proof fn lemma_subrange_split(s: Seq<u8>, pos: int, a: Seq<u8>, b: Seq<u8>)
    requires
        0 <= pos,
        pos + a.len() + b.len() <= s.len(),
        s.subrange(pos, pos + a.len() + b.len()) == a + b,
    ensures
        s.subrange(pos, pos + a.len()) == a,
        s.subrange(pos + a.len(), pos + a.len() + b.len()) == b,
{
    assert(s.subrange(pos, pos + a.len()) =~= a) by {
        assert forall|i: int| 0 <= i < a.len() implies #[trigger] s.subrange(
            pos,
            pos + a.len(),
        )[i] == a[i] by {
            assert(s.subrange(pos, pos + a.len() + b.len())[i] == (a + b)[i]);
        }
    }
    assert(s.subrange(pos + a.len(), pos + a.len() + b.len()) =~= b) by {
        assert forall|i: int| 0 <= i < b.len() implies #[trigger] s.subrange(
            pos + a.len(),
            pos + a.len() + b.len(),
        )[i] == b[i] by {
            assert(s.subrange(pos, pos + a.len() + b.len())[i + a.len()] == (a + b)[i + a.len()]);
            assert(s.subrange(pos, pos + a.len() + b.len())[i + a.len()] == s[pos + a.len() + i]);
            assert((a + b)[i + a.len()] == b[i]);
            assert(s.subrange(pos + a.len(), pos + a.len() + b.len())[i] == s[pos + a.len() + i]);
        }
    }
}

/// One datum: `@` and twenty digits for an entity reference, a sign and
/// nineteen digits for integer data.
pub open spec fn spec_parse_datum(s: Seq<u8>, pos: int) -> Option<(FieldData, int)> {
    if !(0 <= pos < s.len()) {
        None
    } else if s[pos] == 64 {
        match spec_parse_digits(s, pos + 1, 20) {
            Some((v, p)) => if v <= u64::MAX {
                Some((FieldData::EntityRef(v as u64), p))
            } else {
                None
            },
            None => None,
        }
    } else if s[pos] == 43 {
        match spec_parse_digits(s, pos + 1, 19) {
            Some((v, p)) => if v <= i64::MAX {
                Some((FieldData::Int(v as i64), p))
            } else {
                None
            },
            None => None,
        }
    } else if s[pos] == 45 {
        match spec_parse_digits(s, pos + 1, 19) {
            Some((v, p)) => if v <= 0x8000000000000000 {
                Some((FieldData::Int((-v) as i64), p))
            } else {
                None
            },
            None => None,
        }
    } else {
        None
    }
}

/// The encoded form of one datum.
pub open spec fn enc_datum(d: FieldData) -> Seq<u8> {
    match d {
        FieldData::Int(n) => if n >= 0 {
            seq![43u8] + digits_of(n as int, 19)
        } else {
            seq![45u8] + digits_of(-(n as int), 19)
        },
        FieldData::EntityRef(e) => seq![64u8] + digits_of(e as int, 20),
    }
}

/// `pow10` at the widths the grammar uses.
pub proof fn lemma_pow10_values()
    ensures
        pow10(10) == 0x2540BE400,
        pow10(19) == 10000000000000000000,
        pow10(20) == 100000000000000000000,
{
    reveal_with_fuel(pow10, 21);
}

/// Reading back what `enc_datum` wrote returns the datum written.
pub proof fn lemma_datum_roundtrip(s: Seq<u8>, pos: int, d: FieldData)
    requires
        0 <= pos,
        pos + enc_datum(d).len() <= s.len(),
        s.subrange(pos, pos + enc_datum(d).len()) == enc_datum(d),
    ensures
        spec_parse_datum(s, pos) == Some((d, pos + enc_datum(d).len())),
{
    lemma_pow10_values();
    match d {
        FieldData::Int(n) => {
            if n >= 0 {
                lemma_digits_of_wf(n as int, 19);
                lemma_subrange_split(s, pos, seq![43u8], digits_of(n as int, 19));
                assert(s[pos] == 43) by {
                    assert(s.subrange(pos, pos + 1)[0] == seq![43u8][0]);
                }
                lemma_digits_roundtrip(s, pos + 1, n as int, 19);
            } else {
                lemma_digits_of_wf(-(n as int), 19);
                lemma_subrange_split(s, pos, seq![45u8], digits_of(-(n as int), 19));
                assert(s[pos] == 45) by {
                    assert(s.subrange(pos, pos + 1)[0] == seq![45u8][0]);
                }
                lemma_digits_roundtrip(s, pos + 1, -(n as int), 19);
            }
        },
        FieldData::EntityRef(e) => {
            lemma_digits_of_wf(e as int, 20);
            lemma_subrange_split(s, pos, seq![64u8], digits_of(e as int, 20));
            assert(s[pos] == 64) by {
                assert(s.subrange(pos, pos + 1)[0] == seq![64u8][0]);
            }
            lemma_digits_roundtrip(s, pos + 1, e as int, 20);
        },
    }
}

/// One field: a quoted path, a colon, a datum, a comma.
pub open spec fn spec_parse_field(s: Seq<u8>, pos: int) -> Option<((Seq<u8>, FieldData), int)> {
    match spec_parse_string(s, pos) {
        None => None,
        Some((path, pos1)) => if 0 <= pos1 < s.len() && s[pos1] == 58 {
            match spec_parse_datum(s, pos1 + 1) {
                None => None,
                Some((d, pos2)) => if 0 <= pos2 < s.len() && s[pos2] == 44 {
                    Some(((path, d), pos2 + 1))
                } else {
                    None
                },
            }
        } else {
            None
        },
    }
}

/// The encoded form of one field.
pub open spec fn enc_field(f: FieldModel) -> Seq<u8> {
    enc_string(f.path) + seq![58u8] + enc_datum(f.data) + seq![44u8]
}

/// A successful datum read moves forward.
pub proof fn lemma_parse_datum_progress(s: Seq<u8>, pos: int)
    ensures
        match spec_parse_datum(s, pos) {
            Some((d, q)) => pos < q,
            None => true,
        },
{
    if 0 <= pos < s.len() {
        lemma_parse_digits_bound(s, pos + 1, 20);
        lemma_parse_digits_bound(s, pos + 1, 19);
    }
}

/// A successful field read moves forward and stays in bounds.
pub proof fn lemma_parse_field_progress(s: Seq<u8>, pos: int)
    ensures
        match spec_parse_field(s, pos) {
            Some((f, q)) => pos < q <= s.len(),
            None => true,
        },
{
    if spec_parse_field(s, pos) is Some {
        if 0 <= pos < s.len() && s[pos] == 34 {
            lemma_quote_end(s, pos + 1);
            match quote_end(s, pos + 1) {
                Some(e) => {
                    lemma_parse_datum_progress(s, e + 2);
                },
                None => {},
            }
        }
    }
}

/// Reading back what `enc_field` wrote returns the field written.
pub proof fn lemma_field_roundtrip(s: Seq<u8>, pos: int, f: FieldModel)
    requires
        string_encodable(f.path),
        0 <= pos,
        pos + enc_field(f).len() <= s.len(),
        s.subrange(pos, pos + enc_field(f).len()) == enc_field(f),
    ensures
        spec_parse_field(s, pos) == Some(((f.path, f.data), pos + enc_field(f).len())),
{
    let a = enc_string(f.path);
    let b = seq![58u8] + enc_datum(f.data) + seq![44u8];
    assert(enc_field(f) =~= a + b);
    lemma_subrange_split(s, pos, a, b);
    lemma_string_roundtrip(s, pos, f.path);
    let pos1 = pos + a.len();
    let b2 = enc_datum(f.data) + seq![44u8];
    assert(b =~= seq![58u8] + b2);
    lemma_subrange_split(s, pos1, seq![58u8], b2);
    assert(s[pos1] == 58) by {
        assert(s.subrange(pos1, pos1 + 1)[0] == seq![58u8][0]);
    }
    lemma_subrange_split(s, pos1 + 1, enc_datum(f.data), seq![44u8]);
    lemma_datum_roundtrip(s, pos1 + 1, f.data);
    let pos2 = pos1 + 1 + enc_datum(f.data).len();
    assert(s[pos2] == 44) by {
        assert(s.subrange(pos2, pos2 + 1)[0] == seq![44u8][0]);
    }
}

/// A field list closed by a parenthesis, the parenthesis consumed.
pub open spec fn spec_parse_fields(s: Seq<u8>, pos: int) -> Option<(Seq<FieldModel>, int)>
    decreases s.len() - pos,
    via spec_parse_fields_dec
{
    if !(0 <= pos < s.len()) {
        None
    } else if s[pos] == 41 {
        Some((Seq::empty(), pos + 1))
    } else {
        match spec_parse_field(s, pos) {
            None => None,
            Some(((path, d), pos1)) => match spec_parse_fields(s, pos1) {
                None => None,
                Some((fs, pos2)) => Some(
                    (Seq::empty().push(FieldModel { path, data: d }) + fs, pos2),
                ),
            },
        }
    }
}

#[via_fn]
proof fn spec_parse_fields_dec(s: Seq<u8>, pos: int) {
    lemma_parse_field_progress(s, pos);
}

/// A successful field-list read moves forward and stays in bounds.
pub proof fn lemma_parse_fields_progress(s: Seq<u8>, pos: int)
    ensures
        match spec_parse_fields(s, pos) {
            Some((fs, q)) => pos < q <= s.len(),
            None => true,
        },
    decreases s.len() - pos,
{
    if 0 <= pos < s.len() && s[pos] != 41 {
        lemma_parse_field_progress(s, pos);
        match spec_parse_field(s, pos) {
            Some(((path, d), pos1)) => {
                lemma_parse_fields_progress(s, pos1);
            },
            None => {},
        }
    }
}

/// The encoded form of a field list, without the closing parenthesis.
pub open spec fn enc_fields(fs: Seq<FieldModel>) -> Seq<u8>
    decreases fs.len(),
{
    if fs.len() == 0 {
        Seq::empty()
    } else {
        enc_field(fs[0]) + enc_fields(fs.drop_first())
    }
}

/// Whether every path of a field list can be quoted.
pub open spec fn fields_encodable(fs: Seq<FieldModel>) -> bool {
    forall|i: int| 0 <= i < fs.len() ==> string_encodable((#[trigger] fs[i]).path)
}

/// Reading back what `enc_fields` wrote, with its closing parenthesis,
/// returns the fields written.
pub proof fn lemma_fields_roundtrip(s: Seq<u8>, pos: int, fs: Seq<FieldModel>)
    requires
        fields_encodable(fs),
        0 <= pos,
        pos + enc_fields(fs).len() + 1 <= s.len(),
        s.subrange(pos, pos + enc_fields(fs).len() + 1) == enc_fields(fs).push(41u8),
    ensures
        spec_parse_fields(s, pos) == Some((fs, pos + enc_fields(fs).len() + 1)),
    decreases fs.len(),
{
    if fs.len() == 0 {
        assert(s[pos] == 41) by {
            assert(s.subrange(pos, pos + 1)[0] == enc_fields(fs).push(41u8)[0]);
        }
    } else {
        let f = fs[0];
        let a = enc_field(f);
        let b = enc_fields(fs.drop_first()).push(41u8);
        assert(enc_fields(fs).push(41u8) =~= a + b);
        lemma_subrange_split(s, pos, a, b);
        lemma_field_roundtrip(s, pos, f);
        assert(s[pos] == 34) by {
            assert(s.subrange(pos, pos + a.len())[0] == a[0]);
            assert(a[0] == enc_string(f.path)[0]);
        }
        let pos1 = pos + a.len();
        lemma_fields_roundtrip(s, pos1, fs.drop_first());
        assert(Seq::empty().push(FieldModel { path: f.path, data: f.data }) + fs.drop_first()
            =~= fs);
    }
}

/// One component: a quoted type name that the registry must know, a colon,
/// the fields in parentheses, a comma.
pub open spec fn spec_parse_comp(s: Seq<u8>, pos: int, reg: Seq<RegistrationModel>) -> Result<
    (ValueModel, int),
    DecodeErrorModel,
> {
    match spec_parse_string(s, pos) {
        None => Err(DecodeErrorModel::Malformed),
        Some((name, pos1)) => if reg_get(reg, name) is None {
            Err(DecodeErrorModel::UnknownType { name })
        } else if 0 <= pos1 && pos1 + 1 < s.len() && s[pos1] == 58 && s[pos1 + 1] == 40 {
            match spec_parse_fields(s, pos1 + 2) {
                None => Err(DecodeErrorModel::Malformed),
                Some((fs, pos2)) => if 0 <= pos2 < s.len() && s[pos2] == 44 {
                    Ok((ValueModel { name, fields: fs }, pos2 + 1))
                } else {
                    Err(DecodeErrorModel::Malformed)
                },
            }
        } else {
            Err(DecodeErrorModel::Malformed)
        },
    }
}

/// The encoded form of one component value.
pub open spec fn enc_comp(v: ValueModel) -> Seq<u8> {
    enc_string(v.name) + seq![58u8, 40u8] + enc_fields(v.fields) + seq![41u8, 44u8]
}

/// A successful component read moves forward and stays in bounds.
pub proof fn lemma_parse_comp_progress(s: Seq<u8>, pos: int, reg: Seq<RegistrationModel>)
    ensures
        match spec_parse_comp(s, pos, reg) {
            Ok((v, q)) => pos < q <= s.len(),
            Err(_) => true,
        },
{
    if spec_parse_comp(s, pos, reg) is Ok {
        if 0 <= pos < s.len() && s[pos] == 34 {
            lemma_quote_end(s, pos + 1);
            match quote_end(s, pos + 1) {
                Some(e) => {
                    lemma_parse_fields_progress(s, e + 3);
                },
                None => {},
            }
        }
    }
}

/// Reading back what `enc_comp` wrote returns the value written, provided
/// the registry knows its type name.
pub proof fn lemma_comp_roundtrip(s: Seq<u8>, pos: int, v: ValueModel, reg: Seq<RegistrationModel>)
    requires
        string_encodable(v.name),
        fields_encodable(v.fields),
        reg_get(reg, v.name) is Some,
        0 <= pos,
        pos + enc_comp(v).len() <= s.len(),
        s.subrange(pos, pos + enc_comp(v).len()) == enc_comp(v),
    ensures
        spec_parse_comp(s, pos, reg) == Ok::<_, DecodeErrorModel>(
            (v, pos + enc_comp(v).len()),
        ),
{
    let a = enc_string(v.name);
    let b = seq![58u8, 40u8] + enc_fields(v.fields) + seq![41u8, 44u8];
    assert(enc_comp(v) =~= a + b);
    lemma_subrange_split(s, pos, a, b);
    lemma_string_roundtrip(s, pos, v.name);
    let pos1 = pos + a.len();
    let b2 = enc_fields(v.fields) + seq![41u8, 44u8];
    assert(b =~= seq![58u8, 40u8] + b2);
    lemma_subrange_split(s, pos1, seq![58u8, 40u8], b2);
    assert(s[pos1] == 58 && s[pos1 + 1] == 40) by {
        assert(s.subrange(pos1, pos1 + 2)[0] == seq![58u8, 40u8][0]);
        assert(s.subrange(pos1, pos1 + 2)[1] == seq![58u8, 40u8][1]);
    }
    let c = enc_fields(v.fields).push(41u8);
    assert(b2 =~= c + seq![44u8]);
    lemma_subrange_split(s, pos1 + 2, c, seq![44u8]);
    lemma_fields_roundtrip(s, pos1 + 2, v.fields);
    let pos2 = pos1 + 2 + c.len();
    assert(s[pos2] == 44) by {
        assert(s.subrange(pos2, pos2 + 1)[0] == seq![44u8][0]);
    }
    assert(ValueModel { name: v.name, fields: v.fields } =~= v);
}

/// A component list closed by a brace, the brace consumed.
pub open spec fn spec_parse_comps(s: Seq<u8>, pos: int, reg: Seq<RegistrationModel>) -> Result<
    (Seq<ValueModel>, int),
    DecodeErrorModel,
>
    decreases s.len() - pos,
    via spec_parse_comps_dec
{
    if !(0 <= pos < s.len()) {
        Err(DecodeErrorModel::Malformed)
    } else if s[pos] == 125 {
        Ok((Seq::empty(), pos + 1))
    } else {
        match spec_parse_comp(s, pos, reg) {
            Err(e) => Err(e),
            Ok((v, pos1)) => match spec_parse_comps(s, pos1, reg) {
                Err(e) => Err(e),
                Ok((vs, pos2)) => Ok((Seq::empty().push(v) + vs, pos2)),
            },
        }
    }
}

#[via_fn]
proof fn spec_parse_comps_dec(s: Seq<u8>, pos: int, reg: Seq<RegistrationModel>) {
    lemma_parse_comp_progress(s, pos, reg);
}

/// A successful component-list read moves forward and stays in bounds.
pub proof fn lemma_parse_comps_progress(s: Seq<u8>, pos: int, reg: Seq<RegistrationModel>)
    ensures
        match spec_parse_comps(s, pos, reg) {
            Ok((vs, q)) => pos < q <= s.len(),
            Err(_) => true,
        },
    decreases s.len() - pos,
{
    if 0 <= pos < s.len() && s[pos] != 125 {
        lemma_parse_comp_progress(s, pos, reg);
        match spec_parse_comp(s, pos, reg) {
            Ok((v, pos1)) => {
                lemma_parse_comps_progress(s, pos1, reg);
            },
            Err(_) => {},
        }
    }
}

/// The encoded form of a component list, without the closing brace.
pub open spec fn enc_comps(vs: Seq<ValueModel>) -> Seq<u8>
    decreases vs.len(),
{
    if vs.len() == 0 {
        Seq::empty()
    } else {
        enc_comp(vs[0]) + enc_comps(vs.drop_first())
    }
}

/// Whether every value of a list can be encoded against the registry.
pub open spec fn comps_encodable(vs: Seq<ValueModel>, reg: Seq<RegistrationModel>) -> bool {
    forall|i: int|
        0 <= i < vs.len() ==> string_encodable((#[trigger] vs[i]).name) && fields_encodable(
            vs[i].fields,
        ) && reg_get(reg, vs[i].name) is Some
}

/// Reading back what `enc_comps` wrote, with its closing brace, returns
/// the values written.
pub proof fn lemma_comps_roundtrip(
    s: Seq<u8>,
    pos: int,
    vs: Seq<ValueModel>,
    reg: Seq<RegistrationModel>,
)
    requires
        comps_encodable(vs, reg),
        0 <= pos,
        pos + enc_comps(vs).len() + 1 <= s.len(),
        s.subrange(pos, pos + enc_comps(vs).len() + 1) == enc_comps(vs).push(125u8),
    ensures
        spec_parse_comps(s, pos, reg) == Ok::<_, DecodeErrorModel>(
            (vs, pos + enc_comps(vs).len() + 1),
        ),
    decreases vs.len(),
{
    if vs.len() == 0 {
        assert(s[pos] == 125) by {
            assert(s.subrange(pos, pos + 1)[0] == enc_comps(vs).push(125u8)[0]);
        }
        assert(vs =~= Seq::<ValueModel>::empty());
    } else {
        let v = vs[0];
        let a = enc_comp(v);
        let b = enc_comps(vs.drop_first()).push(125u8);
        assert(enc_comps(vs).push(125u8) =~= a + b);
        lemma_subrange_split(s, pos, a, b);
        lemma_comp_roundtrip(s, pos, v, reg);
        assert(s[pos] == 34) by {
            assert(s.subrange(pos, pos + a.len())[0] == a[0]);
            assert(a[0] == enc_string(v.name)[0]);
        }
        let pos1 = pos + a.len();
        assert(comps_encodable(vs.drop_first(), reg)) by {
            assert forall|i: int| 0 <= i < vs.drop_first().len() implies string_encodable(
                (#[trigger] vs.drop_first()[i]).name,
            ) && fields_encodable(vs.drop_first()[i].fields) && reg_get(
                reg,
                vs.drop_first()[i].name,
            ) is Some by {
                assert(vs.drop_first()[i] == vs[i + 1]);
            }
        }
        lemma_comps_roundtrip(s, pos1, vs.drop_first(), reg);
        assert(Seq::empty().push(v) + vs.drop_first() =~= vs);
    }
}

/// One entry: ten digits of entity id, a colon, the components in braces,
/// a comma.
pub open spec fn spec_parse_entry(s: Seq<u8>, pos: int, reg: Seq<RegistrationModel>) -> Result<
    (PrefabEntityModel, int),
    DecodeErrorModel,
> {
    match spec_parse_digits(s, pos, 10) {
        None => Err(DecodeErrorModel::Malformed),
        Some((v, p)) => if v <= u32::MAX && 0 <= p && p + 1 < s.len() && s[p] == 58 && s[p + 1]
            == 123 {
            match spec_parse_comps(s, p + 2, reg) {
                Err(e) => Err(e),
                Ok((vs, pos2)) => if 0 <= pos2 < s.len() && s[pos2] == 44 {
                    Ok((PrefabEntityModel { entity: v as u32, components: vs }, pos2 + 1))
                } else {
                    Err(DecodeErrorModel::Malformed)
                },
            }
        } else {
            Err(DecodeErrorModel::Malformed)
        },
    }
}

/// The encoded form of one entry.
pub open spec fn enc_entry(e: PrefabEntityModel) -> Seq<u8> {
    digits_of(e.entity as int, 10) + seq![58u8, 123u8] + enc_comps(e.components) + seq![
        125u8,
        44u8,
    ]
}

/// A successful entry read moves forward and stays in bounds.
pub proof fn lemma_parse_entry_progress(s: Seq<u8>, pos: int, reg: Seq<RegistrationModel>)
    ensures
        match spec_parse_entry(s, pos, reg) {
            Ok((e, q)) => q <= s.len(),
            Err(_) => true,
        },
{
}

/// Reading back what `enc_entry` wrote returns the entry written.
pub proof fn lemma_entry_roundtrip(
    s: Seq<u8>,
    pos: int,
    e: PrefabEntityModel,
    reg: Seq<RegistrationModel>,
)
    requires
        comps_encodable(e.components, reg),
        0 <= pos,
        pos + enc_entry(e).len() <= s.len(),
        s.subrange(pos, pos + enc_entry(e).len()) == enc_entry(e),
    ensures
        spec_parse_entry(s, pos, reg) == Ok::<_, DecodeErrorModel>(
            (e, pos + enc_entry(e).len()),
        ),
{
    lemma_pow10_values();
    let a = digits_of(e.entity as int, 10);
    let b = seq![58u8, 123u8] + enc_comps(e.components) + seq![125u8, 44u8];
    assert(enc_entry(e) =~= a + b);
    lemma_digits_of_wf(e.entity as int, 10);
    lemma_subrange_split(s, pos, a, b);
    lemma_digits_roundtrip(s, pos, e.entity as int, 10);
    let pos1 = pos + a.len();
    let b2 = enc_comps(e.components) + seq![125u8, 44u8];
    assert(b =~= seq![58u8, 123u8] + b2);
    lemma_subrange_split(s, pos1, seq![58u8, 123u8], b2);
    assert(s[pos1] == 58 && s[pos1 + 1] == 123) by {
        assert(s.subrange(pos1, pos1 + 2)[0] == seq![58u8, 123u8][0]);
        assert(s.subrange(pos1, pos1 + 2)[1] == seq![58u8, 123u8][1]);
    }
    let c = enc_comps(e.components).push(125u8);
    assert(b2 =~= c + seq![44u8]);
    lemma_subrange_split(s, pos1 + 2, c, seq![44u8]);
    lemma_comps_roundtrip(s, pos1 + 2, e.components, reg);
    let pos2 = pos1 + 2 + c.len();
    assert(s[pos2] == 44) by {
        assert(s.subrange(pos2, pos2 + 1)[0] == seq![44u8][0]);
    }
    assert(PrefabEntityModel { entity: e.entity, components: e.components } =~= e);
}

/// An entry list closed by a brace, the brace consumed.
pub open spec fn spec_parse_entries(s: Seq<u8>, pos: int, reg: Seq<RegistrationModel>) -> Result<
    (Seq<PrefabEntityModel>, int),
    DecodeErrorModel,
>
    decreases s.len() - pos,
    via spec_parse_entries_dec
{
    if !(0 <= pos < s.len()) {
        Err(DecodeErrorModel::Malformed)
    } else if s[pos] == 125 {
        Ok((Seq::empty(), pos + 1))
    } else {
        match spec_parse_entry(s, pos, reg) {
            Err(e) => Err(e),
            Ok((en, pos1)) => if pos < pos1 {
                match spec_parse_entries(s, pos1, reg) {
                    Err(e) => Err(e),
                    Ok((es, pos2)) => Ok((Seq::empty().push(en) + es, pos2)),
                }
            } else {
                Err(DecodeErrorModel::Malformed)
            },
        }
    }
}

#[via_fn]
proof fn spec_parse_entries_dec(s: Seq<u8>, pos: int, reg: Seq<RegistrationModel>) {
    lemma_parse_entry_progress(s, pos, reg);
}

/// The encoded form of an entry list, without the closing brace.
pub open spec fn enc_entries(es: Seq<PrefabEntityModel>) -> Seq<u8>
    decreases es.len(),
{
    if es.len() == 0 {
        Seq::empty()
    } else {
        enc_entry(es[0]) + enc_entries(es.drop_first())
    }
}

/// Whether a prefab can be encoded against the registry: every type name
/// and field path is quote-free and every type name is registered.
pub open spec fn prefab_encodable(es: Seq<PrefabEntityModel>, reg: Seq<RegistrationModel>) -> bool {
    forall|i: int| 0 <= i < es.len() ==> comps_encodable((#[trigger] es[i]).components, reg)
}

/// Reading back what `enc_entries` wrote, with its closing brace, returns
/// the entries written.
pub proof fn lemma_entries_roundtrip(
    s: Seq<u8>,
    pos: int,
    es: Seq<PrefabEntityModel>,
    reg: Seq<RegistrationModel>,
)
    requires
        prefab_encodable(es, reg),
        0 <= pos,
        pos + enc_entries(es).len() + 1 <= s.len(),
        s.subrange(pos, pos + enc_entries(es).len() + 1) == enc_entries(es).push(125u8),
    ensures
        spec_parse_entries(s, pos, reg) == Ok::<_, DecodeErrorModel>(
            (es, pos + enc_entries(es).len() + 1),
        ),
    decreases es.len(),
{
    if es.len() == 0 {
        assert(s[pos] == 125) by {
            assert(s.subrange(pos, pos + 1)[0] == enc_entries(es).push(125u8)[0]);
        }
        assert(es =~= Seq::<PrefabEntityModel>::empty());
    } else {
        let e = es[0];
        let a = enc_entry(e);
        let b = enc_entries(es.drop_first()).push(125u8);
        assert(enc_entries(es).push(125u8) =~= a + b);
        lemma_subrange_split(s, pos, a, b);
        lemma_entry_roundtrip(s, pos, e, reg);
        assert(s[pos] != 125) by {
            lemma_digits_of_wf(e.entity as int, 10);
            assert(s.subrange(pos, pos + a.len())[0] == a[0]);
            assert(a[0] == digits_of(e.entity as int, 10)[0]);
        }
        let pos1 = pos + a.len();
        assert(prefab_encodable(es.drop_first(), reg)) by {
            assert forall|i: int| 0 <= i < es.drop_first().len() implies comps_encodable(
                (#[trigger] es.drop_first()[i]).components,
                reg,
            ) by {
                assert(es.drop_first()[i] == es[i + 1]);
            }
        }
        lemma_entries_roundtrip(s, pos1, es.drop_first(), reg);
        assert(Seq::empty().push(e) + es.drop_first() =~= es);
    }
}

/// The whole wire form: an entry list in braces, nothing after it.
pub open spec fn decode_spec(s: Seq<u8>, reg: Seq<RegistrationModel>) -> Result<
    Seq<PrefabEntityModel>,
    DecodeErrorModel,
> {
    if s.len() >= 1 && s[0] == 123 {
        match spec_parse_entries(s, 1, reg) {
            Err(e) => Err(e),
            Ok((es, p)) => if p == s.len() {
                Ok(es)
            } else {
                Err(DecodeErrorModel::Malformed)
            },
        }
    } else {
        Err(DecodeErrorModel::Malformed)
    }
}

/// The encoded form of a prefab.
pub open spec fn encode_spec(es: Seq<PrefabEntityModel>) -> Seq<u8> {
    seq![123u8] + enc_entries(es) + seq![125u8]
}

/// Whether every type name and field path of a value list is quote-free.
pub open spec fn comps_quotefree(vs: Seq<ValueModel>) -> bool {
    forall|i: int|
        0 <= i < vs.len() ==> string_encodable((#[trigger] vs[i]).name) && fields_encodable(
            vs[i].fields,
        )
}

/// Whether every type name and field path of a prefab is quote-free: what
/// encoding needs.
pub open spec fn prefab_quotefree(es: Seq<PrefabEntityModel>) -> bool {
    forall|i: int| 0 <= i < es.len() ==> comps_quotefree((#[trigger] es[i]).components)
}

/// Appending an entry extends its encoding.
pub proof fn lemma_enc_entries_snoc(es: Seq<PrefabEntityModel>, e: PrefabEntityModel)
    ensures
        enc_entries(es.push(e)) == enc_entries(es) + enc_entry(e),
    decreases es.len(),
{
    reveal_with_fuel(enc_entries, 3);
    if es.len() == 0 {
        assert(es.push(e)[0] == e);
        assert(es.push(e).drop_first() =~= Seq::<PrefabEntityModel>::empty());
        assert(enc_entries(es.push(e)) =~= enc_entries(es) + enc_entry(e));
    } else {
        assert(es.push(e)[0] == es[0]);
        assert(es.push(e).drop_first() =~= es.drop_first().push(e));
        lemma_enc_entries_snoc(es.drop_first(), e);
        assert(enc_entries(es.push(e)) =~= enc_entries(es) + enc_entry(e));
    }
}

/// Appending a value extends its encoding.
pub proof fn lemma_enc_comps_snoc(vs: Seq<ValueModel>, v: ValueModel)
    ensures
        enc_comps(vs.push(v)) == enc_comps(vs) + enc_comp(v),
    decreases vs.len(),
{
    reveal_with_fuel(enc_comps, 3);
    if vs.len() == 0 {
        assert(vs.push(v)[0] == v);
        assert(vs.push(v).drop_first() =~= Seq::<ValueModel>::empty());
        assert(enc_comps(vs.push(v)) =~= enc_comps(vs) + enc_comp(v));
    } else {
        assert(vs.push(v)[0] == vs[0]);
        assert(vs.push(v).drop_first() =~= vs.drop_first().push(v));
        lemma_enc_comps_snoc(vs.drop_first(), v);
        assert(enc_comps(vs.push(v)) =~= enc_comps(vs) + enc_comp(v));
    }
}

/// Appending a field extends its encoding.
pub proof fn lemma_enc_fields_snoc(fs: Seq<FieldModel>, f: FieldModel)
    ensures
        enc_fields(fs.push(f)) == enc_fields(fs) + enc_field(f),
    decreases fs.len(),
{
    reveal_with_fuel(enc_fields, 3);
    if fs.len() == 0 {
        assert(fs.push(f)[0] == f);
        assert(fs.push(f).drop_first() =~= Seq::<FieldModel>::empty());
        assert(enc_fields(fs.push(f)) =~= enc_fields(fs) + enc_field(f));
    } else {
        assert(fs.push(f)[0] == fs[0]);
        assert(fs.push(f).drop_first() =~= fs.drop_first().push(f));
        lemma_enc_fields_snoc(fs.drop_first(), f);
        assert(enc_fields(fs.push(f)) =~= enc_fields(fs) + enc_field(f));
    }
}

/// Append the fixed-width decimal digits of `n`.
fn push_digits(out: &mut Vec<u8>, n: u128, w: usize)
    ensures
        final(out)@ == old(out)@ + digits_of(n as int, w as nat),
    decreases w,
{
    if w == 0 {
        proof {
            assert(out@ =~= old(out)@ + digits_of(n as int, 0));
        }
    } else {
        let ghost before = out@;
        push_digits(out, n / 10, w - 1);
        let d: u8 = 48 + (n % 10) as u8;
        out.push(d);
        proof {
            assert((n / 10) as int == n as int / 10);
            assert((n % 10) as int == n as int % 10);
            assert(out@ =~= before + digits_of(n as int, w as nat));
        }
    }
}

/// Append raw bytes.
fn push_bytes(out: &mut Vec<u8>, b: &Vec<u8>)
    ensures
        final(out)@ == old(out)@ + b@,
{
    let ghost before = out@;
    let mut i: usize = 0;
    while i < b.len()
        invariant
            i <= b.len(),
            out@ == before + b@.take(i as int),
        decreases b.len() - i,
    {
        out.push(b[i]);
        proof {
            assert(out@ =~= before + b@.take(i + 1));
        }
        i += 1;
    }
    proof {
        assert(b@.take(b@.len() as int) =~= b@);
    }
}

/// Append a quoted byte string.
fn push_string(out: &mut Vec<u8>, b: &Vec<u8>)
    ensures
        final(out)@ == old(out)@ + enc_string(b@),
{
    let ghost before = out@;
    out.push(34);
    push_bytes(out, b);
    out.push(34);
    proof {
        assert(out@ =~= before + enc_string(b@));
    }
}

/// Append one encoded datum.
fn push_datum(out: &mut Vec<u8>, d: FieldData)
    ensures
        final(out)@ == old(out)@ + enc_datum(d),
{
    let ghost before = out@;
    match d {
        FieldData::Int(n) => {
            if n >= 0 {
                out.push(43);
                push_digits(out, n as u128, 19);
                proof {
                    assert(out@ =~= before + enc_datum(d));
                }
            } else {
                out.push(45);
                let m: u128 = (-(n as i128)) as u128;
                push_digits(out, m, 19);
                proof {
                    assert(m as int == -(n as int));
                    assert(out@ =~= before + enc_datum(d));
                }
            }
        },
        FieldData::EntityRef(e) => {
            out.push(64);
            push_digits(out, e as u128, 20);
            proof {
                assert(out@ =~= before + enc_datum(d));
            }
        },
    }
}

impl crate::asset::Prefab {
    /// Encode this prefab into its wire form. Only type names and field
    /// paths without a quote byte can be represented.
    pub fn encode(&self) -> (r: Vec<u8>)
        requires
            prefab_quotefree(self@),
        ensures
            r@ == encode_spec(self@),
    {
        let ghost em = self@;
        let mut out: Vec<u8> = Vec::new();
        out.push(123);
        let mut i: usize = 0;
        proof {
            assert(out@ =~= seq![123u8] + enc_entries(em.take(0)));
        }
        while i < self.entities.len()
            invariant
                i <= self.entities.len(),
                em == self@,
                prefab_quotefree(em),
                out@ == seq![123u8] + enc_entries(em.take(i as int)),
            decreases self.entities.len() - i,
        {
            let ghost e = em[i as int];
            proof {
                assert(e == self.entities@[i as int]@);
                assert(comps_quotefree(e.components));
            }
            let entry = &self.entities[i];
            push_digits(&mut out, entry.entity as u128, 10);
            out.push(58);
            out.push(123);
            let ghost after_head = out@;
            let mut c: usize = 0;
            proof {
                assert(out@ =~= after_head + enc_comps(e.components.take(0)));
            }
            while c < entry.components.len()
                invariant
                    c <= entry.components.len(),
                    e.components == entry.components@.map_values(|v: Value| v@),
                    comps_quotefree(e.components),
                    out@ == after_head + enc_comps(e.components.take(c as int)),
                decreases entry.components.len() - c,
            {
                let ghost v = e.components[c as int];
                proof {
                    assert(v == entry.components@[c as int]@);
                }
                let comp = &entry.components[c];
                push_string(&mut out, &comp.name);
                out.push(58);
                out.push(40);
                let ghost after_name = out@;
                let mut fi: usize = 0;
                proof {
                    assert(out@ =~= after_name + enc_fields(v.fields.take(0)));
                }
                while fi < comp.fields.len()
                    invariant
                        fi <= comp.fields.len(),
                        v.fields == comp.fields@.map_values(|f: crate::value::Field| f@),
                        out@ == after_name + enc_fields(v.fields.take(fi as int)),
                    decreases comp.fields.len() - fi,
                {
                    let ghost f = v.fields[fi as int];
                    proof {
                        assert(f == comp.fields@[fi as int]@);
                    }
                    push_string(&mut out, &comp.fields[fi].path);
                    out.push(58);
                    push_datum(&mut out, comp.fields[fi].data);
                    out.push(44);
                    proof {
                        lemma_enc_fields_snoc(v.fields.take(fi as int), f);
                        assert(v.fields.take(fi + 1) =~= v.fields.take(fi as int).push(f));
                        assert(out@ =~= after_name + enc_fields(v.fields.take(fi + 1)));
                    }
                    fi += 1;
                }
                out.push(41);
                out.push(44);
                proof {
                    assert(v.fields.take(v.fields.len() as int) =~= v.fields);
                    lemma_enc_comps_snoc(e.components.take(c as int), v);
                    assert(e.components.take(c + 1) =~= e.components.take(c as int).push(v));
                    assert(out@ =~= after_head + enc_comps(e.components.take(c + 1)));
                }
                c += 1;
            }
            out.push(125);
            out.push(44);
            proof {
                assert(e.components.take(e.components.len() as int) =~= e.components);
                lemma_enc_entries_snoc(em.take(i as int), e);
                assert(em.take(i + 1) =~= em.take(i as int).push(e));
                assert(out@ =~= seq![123u8] + enc_entries(em.take(i + 1)));
            }
            i += 1;
        }
        out.push(125);
        proof {
            assert(em.take(em.len() as int) =~= em);
            assert(out@ =~= encode_spec(em));
        }
        out
    }
}

/// `pow10` grows with the exponent.
pub proof fn lemma_pow10_le(a: nat, b: nat)
    requires
        a <= b,
    ensures
        pow10(a) <= pow10(b),
    decreases b,
{
    if a < b {
        lemma_pow10_le(a, (b - 1) as nat);
        assert(pow10(b) == 10 * pow10((b - 1) as nat));
        assert(pow10((b - 1) as nat) >= 1) by {
            lemma_pow10_le(0, (b - 1) as nat);
        }
    }
}

/// Read exactly `w` digit bytes at `pos`; see [`spec_parse_digits`].
fn parse_digits_at(s: &Vec<u8>, pos: usize, w: usize) -> (r: Option<(u128, usize)>)
    requires
        w <= 20,
        pos <= s@.len(),
    ensures
        match r {
            Some((v, p)) => spec_parse_digits(s@, pos as int, w as nat) == Some(
                (v as int, p as int),
            ) && p <= s@.len(),
            None => spec_parse_digits(s@, pos as int, w as nat) is None,
        },
    decreases w,
{
    if w == 0 {
        Some((0, pos))
    } else {
        match parse_digits_at(s, pos, w - 1) {
            None => None,
            Some((v, p)) => {
                if p < s.len() {
                    let b = s[p];
                    if 48 <= b && b <= 57 {
                        proof {
                            lemma_parse_digits_bound(s@, pos as int, (w - 1) as nat);
                            lemma_pow10_le((w - 1) as nat, 20);
                            lemma_pow10_values();
                        }
                        Some((v * 10 + (b - 48) as u128, p + 1))
                    } else {
                        None
                    }
                } else {
                    None
                }
            },
        }
    }
}

/// Read a quoted byte string at `pos`; see [`spec_parse_string`].
fn parse_string_at(s: &Vec<u8>, pos: usize) -> (r: Option<(Vec<u8>, usize)>)
    ensures
        match r {
            Some((b, p)) => spec_parse_string(s@, pos as int) == Some((b@, p as int)) && pos < p
                <= s@.len(),
            None => spec_parse_string(s@, pos as int) is None,
        },
{
    if pos < s.len() && s[pos] == 34 {
        let mut e: usize = pos + 1;
        while e < s.len() && s[e] != 34
            invariant
                pos + 1 <= e <= s@.len(),
                forall|j: int| pos + 1 <= j < e ==> s@[j] != 34,
            decreases s@.len() - e,
        {
            e += 1;
        }
        if e == s.len() {
            proof {
                lemma_quote_end(s@, pos + 1);
            }
            return None;
        }
        proof {
            lemma_quote_end_reaches(s@, pos + 1, e as int);
        }
        let mut b: Vec<u8> = Vec::new();
        let mut i: usize = pos + 1;
        while i < e
            invariant
                pos + 1 <= i <= e <= s@.len(),
                b@.len() == i - pos - 1,
                forall|j: int| 0 <= j < b@.len() ==> b@[j] == s@[pos + 1 + j],
            decreases e - i,
        {
            b.push(s[i]);
            i += 1;
        }
        proof {
            assert(b@ =~= s@.subrange(pos + 1, e as int));
        }
        Some((b, e + 1))
    } else {
        None
    }
}

/// Read one datum at `pos`; see [`spec_parse_datum`].
fn parse_datum_at(s: &Vec<u8>, pos: usize) -> (r: Option<(FieldData, usize)>)
    requires
        pos <= s@.len(),
    ensures
        match r {
            Some((d, p)) => spec_parse_datum(s@, pos as int) == Some((d, p as int)) && pos < p
                <= s@.len(),
            None => spec_parse_datum(s@, pos as int) is None,
        },
{
    if pos >= s.len() {
        return None;
    }
    proof {
        lemma_parse_digits_bound(s@, pos + 1, 20);
        lemma_parse_digits_bound(s@, pos + 1, 19);
    }
    let b = s[pos];
    if b == 64 {
        match parse_digits_at(s, pos + 1, 20) {
            None => None,
            Some((v, p)) => {
                if v <= u64::MAX as u128 {
                    Some((FieldData::EntityRef(v as u64), p))
                } else {
                    None
                }
            },
        }
    } else if b == 43 {
        match parse_digits_at(s, pos + 1, 19) {
            None => None,
            Some((v, p)) => {
                if v <= i64::MAX as u128 {
                    Some((FieldData::Int(v as i64), p))
                } else {
                    None
                }
            },
        }
    } else if b == 45 {
        match parse_digits_at(s, pos + 1, 19) {
            None => None,
            Some((v, p)) => {
                if v <= 0x8000000000000000u128 {
                    let n: i64 = if v == 0x8000000000000000u128 {
                        i64::MIN
                    } else {
                        -(v as i64)
                    };
                    proof {
                        assert(n as int == -(v as int));
                    }
                    Some((FieldData::Int(n), p))
                } else {
                    None
                }
            },
        }
    } else {
        None
    }
}

/// Read one field at `pos`; see [`spec_parse_field`].
fn parse_field_at(s: &Vec<u8>, pos: usize) -> (r: Option<(crate::value::Field, usize)>)
    ensures
        match r {
            Some((f, p)) => spec_parse_field(s@, pos as int) == Some(((f@.path, f@.data), p as int))
                && pos < p <= s@.len(),
            None => spec_parse_field(s@, pos as int) is None,
        },
{
    match parse_string_at(s, pos) {
        None => None,
        Some((path, pos1)) => {
            if pos1 < s.len() && s[pos1] == 58 {
                match parse_datum_at(s, pos1 + 1) {
                    None => None,
                    Some((d, pos2)) => {
                        if pos2 < s.len() && s[pos2] == 44 {
                            Some((crate::value::Field { path, data: d }, pos2 + 1))
                        } else {
                            None
                        }
                    },
                }
            } else {
                None
            }
        },
    }
}

/// Read a field list closed by a parenthesis; see [`spec_parse_fields`].
fn parse_fields_at(s: &Vec<u8>, pos: usize) -> (r: Option<(Vec<crate::value::Field>, usize)>)
    ensures
        match r {
            Some((fs, p)) => spec_parse_fields(s@, pos as int) == Some(
                (fs@.map_values(|f: crate::value::Field| f@), p as int),
            ) && pos < p <= s@.len(),
            None => spec_parse_fields(s@, pos as int) is None,
        },
    decreases s@.len() - pos,
{
    if pos >= s.len() {
        return None;
    }
    if s[pos] == 41 {
        let fs: Vec<crate::value::Field> = Vec::new();
        proof {
            assert(fs@.map_values(|f: crate::value::Field| f@) =~= Seq::<FieldModel>::empty());
        }
        return Some((fs, pos + 1));
    }
    match parse_field_at(s, pos) {
        None => None,
        Some((f, pos1)) => {
            match parse_fields_at(s, pos1) {
                None => None,
                Some((mut fs, pos2)) => {
                    let ghost rest = fs@.map_values(|x: crate::value::Field| x@);
                    let ghost fm = f@;
                    fs.insert(0, f);
                    proof {
                        assert(fs@.map_values(|x: crate::value::Field| x@) =~= Seq::empty().push(
                            FieldModel { path: fm.path, data: fm.data },
                        ) + rest);
                    }
                    Some((fs, pos2))
                },
            }
        },
    }
}

/// Read one component at `pos`; see [`spec_parse_comp`].
fn parse_comp_at(s: &Vec<u8>, pos: usize, registry: &crate::registry::TypeRegistry) -> (r: Result<
    (Value, usize),
    DecodeError,
>)
    ensures
        match r {
            Ok((v, p)) => spec_parse_comp(s@, pos as int, registry@) == Ok::<_, DecodeErrorModel>(
                (v@, p as int),
            ) && pos < p <= s@.len(),
            Err(e) => spec_parse_comp(s@, pos as int, registry@) == Err::<
                (ValueModel, int),
                _,
            >(e@),
        },
{
    match parse_string_at(s, pos) {
        None => Err(DecodeError::Malformed),
        Some((name, pos1)) => {
            if registry.get_with_name(&name).is_none() {
                return Err(DecodeError::UnknownType { name });
            }
            if pos1 < s.len() && s[pos1] == 58 && pos1 + 1 < s.len() && s[pos1 + 1] == 40 {
                match parse_fields_at(s, pos1 + 2) {
                    None => Err(DecodeError::Malformed),
                    Some((fields, pos2)) => {
                        if pos2 < s.len() && s[pos2] == 44 {
                            let v = Value { name, fields };
                            proof {
                                assert(v@ =~= (ValueModel {
                                    name: v.name@,
                                    fields: v.fields@.map_values(
                                        |f: crate::value::Field| f@,
                                    ),
                                }));
                            }
                            Ok((v, pos2 + 1))
                        } else {
                            Err(DecodeError::Malformed)
                        }
                    },
                }
            } else {
                Err(DecodeError::Malformed)
            }
        },
    }
}

/// Read a component list closed by a brace; see [`spec_parse_comps`].
fn parse_comps_at(s: &Vec<u8>, pos: usize, registry: &crate::registry::TypeRegistry) -> (r: Result<
    (Vec<Value>, usize),
    DecodeError,
>)
    ensures
        match r {
            Ok((vs, p)) => spec_parse_comps(s@, pos as int, registry@) == Ok::<
                _,
                DecodeErrorModel,
            >((vs@.map_values(|v: Value| v@), p as int)) && pos < p <= s@.len(),
            Err(e) => spec_parse_comps(s@, pos as int, registry@) == Err::<
                (Seq<ValueModel>, int),
                _,
            >(e@),
        },
    decreases s@.len() - pos,
{
    if pos >= s.len() {
        return Err(DecodeError::Malformed);
    }
    if s[pos] == 125 {
        let vs: Vec<Value> = Vec::new();
        proof {
            assert(vs@.map_values(|v: Value| v@) =~= Seq::<ValueModel>::empty());
        }
        return Ok((vs, pos + 1));
    }
    match parse_comp_at(s, pos, registry) {
        Err(e) => Err(e),
        Ok((v, pos1)) => {
            match parse_comps_at(s, pos1, registry) {
                Err(e) => Err(e),
                Ok((mut vs, pos2)) => {
                    let ghost rest = vs@.map_values(|x: Value| x@);
                    let ghost vm = v@;
                    vs.insert(0, v);
                    proof {
                        assert(vs@.map_values(|x: Value| x@) =~= Seq::empty().push(vm) + rest);
                    }
                    Ok((vs, pos2))
                },
            }
        },
    }
}

/// Read one entry at `pos`; see [`spec_parse_entry`].
fn parse_entry_at(s: &Vec<u8>, pos: usize, registry: &crate::registry::TypeRegistry) -> (r: Result<
    (crate::asset::PrefabEntity, usize),
    DecodeError,
>)
    requires
        pos <= s@.len(),
    ensures
        match r {
            Ok((e, p)) => spec_parse_entry(s@, pos as int, registry@) == Ok::<
                _,
                DecodeErrorModel,
            >((e@, p as int)) && pos < p <= s@.len(),
            Err(e) => spec_parse_entry(s@, pos as int, registry@) == Err::<
                (PrefabEntityModel, int),
                _,
            >(e@),
        },
{
    proof {
        lemma_parse_digits_bound(s@, pos as int, 10);
    }
    match parse_digits_at(s, pos, 10) {
        None => Err(DecodeError::Malformed),
        Some((v, p)) => {
            if v <= u32::MAX as u128 && p < s.len() && s[p] == 58 && p + 1 < s.len() && s[p + 1]
                == 123 {
                match parse_comps_at(s, p + 2, registry) {
                    Err(e) => Err(e),
                    Ok((components, pos2)) => {
                        if pos2 < s.len() && s[pos2] == 44 {
                            let e = crate::asset::PrefabEntity {
                                entity: v as u32,
                                components,
                            };
                            proof {
                                assert(e@ =~= (PrefabEntityModel {
                                    entity: e.entity,
                                    components: e.components@.map_values(|x: Value| x@),
                                }));
                            }
                            Ok((e, pos2 + 1))
                        } else {
                            Err(DecodeError::Malformed)
                        }
                    },
                }
            } else {
                Err(DecodeError::Malformed)
            }
        },
    }
}

/// Read an entry list closed by a brace; see [`spec_parse_entries`].
fn parse_entries_at(s: &Vec<u8>, pos: usize, registry: &crate::registry::TypeRegistry) -> (r:
    Result<(Vec<crate::asset::PrefabEntity>, usize), DecodeError>)
    requires
        pos <= s@.len(),
    ensures
        match r {
            Ok((es, p)) => spec_parse_entries(s@, pos as int, registry@) == Ok::<
                _,
                DecodeErrorModel,
            >((es@.map_values(|e: crate::asset::PrefabEntity| e@), p as int)) && pos < p
                <= s@.len(),
            Err(e) => spec_parse_entries(s@, pos as int, registry@) == Err::<
                (Seq<PrefabEntityModel>, int),
                _,
            >(e@),
        },
    decreases s@.len() - pos,
{
    if pos >= s.len() {
        return Err(DecodeError::Malformed);
    }
    if s[pos] == 125 {
        let es: Vec<crate::asset::PrefabEntity> = Vec::new();
        proof {
            assert(es@.map_values(|e: crate::asset::PrefabEntity| e@) =~= Seq::<
                PrefabEntityModel,
            >::empty());
        }
        return Ok((es, pos + 1));
    }
    match parse_entry_at(s, pos, registry) {
        Err(e) => Err(e),
        Ok((en, pos1)) => {
            match parse_entries_at(s, pos1, registry) {
                Err(e) => Err(e),
                Ok((mut es, pos2)) => {
                    let ghost rest = es@.map_values(|x: crate::asset::PrefabEntity| x@);
                    let ghost em = en@;
                    es.insert(0, en);
                    proof {
                        assert(es@.map_values(|x: crate::asset::PrefabEntity| x@)
                            =~= Seq::empty().push(em) + rest);
                    }
                    Ok((es, pos2))
                },
            }
        },
    }
}

impl crate::asset::Prefab {
    /// Decode a prefab from its wire form against the given registry; see
    /// [`decode_spec`] for exactly which inputs succeed and which error
    /// each other input gives.
    pub fn decode(bytes: &Vec<u8>, registry: &crate::registry::TypeRegistry) -> (r: Result<
        crate::asset::Prefab,
        DecodeError,
    >)
        ensures
            match r {
                Ok(p) => decode_spec(bytes@, registry@) == Ok::<_, DecodeErrorModel>(p@),
                Err(e) => decode_spec(bytes@, registry@) == Err::<Seq<PrefabEntityModel>, _>(e@),
            },
    {
        if bytes.len() >= 1 && bytes[0] == 123 {
            match parse_entries_at(bytes, 1, registry) {
                Err(e) => Err(e),
                Ok((entities, p)) => {
                    if p == bytes.len() {
                        Ok(crate::asset::Prefab { entities })
                    } else {
                        Err(DecodeError::Malformed)
                    }
                },
            }
        } else {
            Err(DecodeError::Malformed)
        }
    }
}

/// Round trip: decoding an encoded prefab, against a registry that knows
/// every type name in it, gives the prefab back.
pub proof fn lemma_decode_encode(es: Seq<PrefabEntityModel>, reg: Seq<RegistrationModel>)
    requires
        prefab_encodable(es, reg),
    ensures
        decode_spec(encode_spec(es), reg) == Ok::<_, DecodeErrorModel>(es),
{
    let s = encode_spec(es);
    assert(s[0] == 123);
    assert(s.subrange(1, enc_entries(es).len() as int + 2) =~= enc_entries(es).push(125u8)) by {
        assert forall|i: int| 0 <= i < enc_entries(es).len() + 1 implies #[trigger] s.subrange(
            1,
            enc_entries(es).len() as int + 2,
        )[i] == enc_entries(es).push(125u8)[i] by {
            if i < enc_entries(es).len() {
                assert(s[1 + i] == (seq![123u8] + enc_entries(es) + seq![125u8])[1 + i]);
            }
        }
    }
    lemma_entries_roundtrip(s, 1, es, reg);
}

} // verus!
