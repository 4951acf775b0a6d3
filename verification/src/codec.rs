//! The value codec: type-directed parsing of literal text into typed
//! values, and canonical formatting of typed values back to text.
//!
//! The specification-level parser [`sp_value`] and formatter [`fm_value`]
//! define the literal grammar; the executable functions mirror them and are
//! proved equal to them.
use crate::error::{CallError, ErrModel};
use crate::text::{
    digits_count, dval, esc_body, esc_char, fmt_int, fmt_u64, is_digit, name_count, sp_body,
    unesc, ws_count,
};
use crate::value::{TypeModel, ValModel, Value, ValueType};
use vstd::prelude::*;

verus! {

broadcast use vstd::seq::group_seq_axioms, vstd::seq_lib::group_seq_lib_default, vstd::std_specs::vec::group_vec_axioms;

/// The keyword `true`.
pub open spec fn kw_true() -> Seq<char> {
    seq!['t', 'r', 'u', 'e']
}

/// The keyword `false`.
pub open spec fn kw_false() -> Seq<char> {
    seq!['f', 'a', 'l', 's', 'e']
}

/// The keyword `none`.
pub open spec fn kw_none() -> Seq<char> {
    seq!['n', 'o', 'n', 'e']
}

/// The keyword `some`.
pub open spec fn kw_some() -> Seq<char> {
    seq!['s', 'o', 'm', 'e']
}

/// The keyword `ok`.
pub open spec fn kw_ok() -> Seq<char> {
    seq!['o', 'k']
}

/// The keyword `err`.
pub open spec fn kw_err() -> Seq<char> {
    seq!['e', 'r', 'r']
}

/// Whether `s` starts with `kw`.
pub open spec fn starts(s: Seq<char>, kw: Seq<char>) -> bool {
    s.len() >= kw.len() && s.take(kw.len() as int) == kw
}

/// The declared names of a record's fields.
pub open spec fn field_names(tfs: Seq<(Seq<char>, TypeModel)>) -> Seq<Seq<char>> {
    Seq::new(tfs.len(), |i: int| tfs[i].0)
}

/// The declared names of a variant's cases.
pub open spec fn case_names(cs: Seq<(Seq<char>, Seq<TypeModel>)>) -> Seq<Seq<char>> {
    Seq::new(cs.len(), |i: int| cs[i].0)
}

/// Index of `n` in `ns`, or `-1` when absent.
pub open spec fn find_name(ns: Seq<Seq<char>>, n: Seq<char>) -> int
    decreases ns.len(),
{
    if ns.len() == 0 {
        -1
    } else if ns[0] == n {
        0
    } else {
        let r = find_name(ns.drop_first(), n);
        if r < 0 {
            -1
        } else {
            1 + r
        }
    }
}

/// The value held in a filled slot.
pub open spec fn slot_val(o: Option<ValModel>) -> ValModel {
    match o {
        Some(v) => v,
        None => vstd::pervasive::arbitrary(),
    }
}

/// The smallest declared index whose slot is still unfilled, from `i` on,
/// or `-1` when all are filled.
pub open spec fn first_unfilled(slots: Seq<Option<ValModel>>, i: int) -> int
    decreases slots.len() - i,
{
    if i < 0 || i >= slots.len() {
        -1
    } else if slots[i] is None {
        i
    } else {
        first_unfilled(slots, i + 1)
    }
}

/// The names of `ns` whose indices occur in `ixs`, in declared order.
pub open spec fn select_names(ns: Seq<Seq<char>>, ixs: Seq<int>, i: int) -> Seq<Seq<char>>
    decreases ns.len() - i,
{
    if i < 0 || i >= ns.len() {
        Seq::empty()
    } else if ixs.contains(i) {
        seq![ns[i]] + select_names(ns, ixs, i + 1)
    } else {
        select_names(ns, ixs, i + 1)
    }
}

/// Parse a signed decimal literal from the front of `s`, admitting values
/// in `min ..= max`; a missing digit run is a type mismatch, a value
/// outside the range (or a sign where none is admitted) a range error.
pub open spec fn sp_sint(s: Seq<char>, min: int, max: int) -> Result<(int, int), ErrModel> {
    if s.len() > 0 && s[0] == '-' {
        let n = digits_count(s.skip(1));
        if n == 0 {
            Err(ErrModel::TypeMismatch)
        } else {
            let v = -dval(s.skip(1).take(n));
            if v < min {
                Err(ErrModel::Range)
            } else {
                Ok((v, 1 + n))
            }
        }
    } else {
        let n = digits_count(s);
        if n == 0 {
            Err(ErrModel::TypeMismatch)
        } else {
            let v = dval(s.take(n));
            if v > max {
                Err(ErrModel::Range)
            } else {
                Ok((v, n))
            }
        }
    }
}

/// Parse one value of type `t` from the front of `s`. Returns the value
/// and the count of characters consumed.
pub open spec fn sp_value(s: Seq<char>, t: TypeModel) -> Result<(ValModel, int), ErrModel>
    decreases s.len(), t, 0int,
{
    match t {
        TypeModel::Bool => if starts(s, kw_true()) {
            Ok((ValModel::Bool(true), 4))
        } else if starts(s, kw_false()) {
            Ok((ValModel::Bool(false), 5))
        } else {
            Err(ErrModel::TypeMismatch)
        },
        TypeModel::S8 => match sp_sint(s, -128, 127) {
            Ok((v, k)) => Ok((ValModel::S8(v as i8), k)),
            Err(e) => Err(e),
        },
        TypeModel::S16 => match sp_sint(s, -32768, 32767) {
            Ok((v, k)) => Ok((ValModel::S16(v as i16), k)),
            Err(e) => Err(e),
        },
        TypeModel::S32 => match sp_sint(s, -2147483648, 2147483647) {
            Ok((v, k)) => Ok((ValModel::S32(v as i32), k)),
            Err(e) => Err(e),
        },
        TypeModel::S64 => match sp_sint(s, -9223372036854775808, 9223372036854775807) {
            Ok((v, k)) => Ok((ValModel::S64(v as i64), k)),
            Err(e) => Err(e),
        },
        TypeModel::U8 => match sp_sint(s, 0, 255) {
            Ok((v, k)) => Ok((ValModel::U8(v as u8), k)),
            Err(e) => Err(e),
        },
        TypeModel::U16 => match sp_sint(s, 0, 65535) {
            Ok((v, k)) => Ok((ValModel::U16(v as u16), k)),
            Err(e) => Err(e),
        },
        TypeModel::U32 => match sp_sint(s, 0, 4294967295) {
            Ok((v, k)) => Ok((ValModel::U32(v as u32), k)),
            Err(e) => Err(e),
        },
        TypeModel::U64 => match sp_sint(s, 0, 18446744073709551615) {
            Ok((v, k)) => Ok((ValModel::U64(v as u64), k)),
            Err(e) => Err(e),
        },
        TypeModel::Char => if s.len() > 0 && s[0] == '\'' {
            match sp_body(s.skip(1), '\'') {
                Err(e) => Err(e),
                Ok((body, k)) => if body.len() == 1 {
                    Ok((ValModel::Char(body[0]), 1 + k + 1))
                } else {
                    Err(ErrModel::TypeMismatch)
                },
            }
        } else {
            Err(ErrModel::TypeMismatch)
        },
        TypeModel::Text => if s.len() > 0 && s[0] == '"' {
            match sp_body(s.skip(1), '"') {
                Err(e) => Err(e),
                Ok((body, k)) => Ok((ValModel::Text(body), 1 + k + 1)),
            }
        } else {
            Err(ErrModel::TypeMismatch)
        },
        TypeModel::List(es) => if es.len() == 1 && s.len() > 0 && s[0] == '[' {
            match sp_elems(s.skip(1), es[0], ']') {
                Err(e) => Err(e),
                Ok((vs, k)) => Ok((ValModel::List(vs), 1 + k)),
            }
        } else {
            Err(ErrModel::TypeMismatch)
        },
        TypeModel::Record(tfs) => if s.len() > 0 && s[0] == '{' {
            match sp_fields(s.skip(1), tfs, Seq::new(tfs.len(), |i: int| None)) {
                Err(e) => Err(e),
                Ok((slots, k)) => {
                    let m = first_unfilled(slots, 0);
                    if m >= 0 {
                        Err(ErrModel::MissingField(tfs[m].0))
                    } else {
                        Ok(
                            (
                                ValModel::Record(
                                    Seq::new(tfs.len(), |i: int| (tfs[i].0, slot_val(slots[i]))),
                                ),
                                1 + k,
                            ),
                        )
                    }
                },
            }
        } else {
            Err(ErrModel::TypeMismatch)
        },
        TypeModel::Tuple(ts) => if s.len() > 0 && s[0] == '(' {
            match sp_tuple(s.skip(1), ts, 0) {
                Err(e) => Err(e),
                Ok((vs, k)) => Ok((ValModel::Tuple(vs), 1 + k)),
            }
        } else {
            Err(ErrModel::TypeMismatch)
        },
        TypeModel::Variant(cs) => {
            let n = name_count(s);
            if n <= 0 || n > s.len() {
                Err(ErrModel::TypeMismatch)
            } else {
                let name = s.take(n);
                let j = find_name(case_names(cs), name);
                if j < 0 {
                    Err(ErrModel::TypeMismatch)
                } else if cs[j].1.len() == 1 {
                    match sp_payload(s.skip(n), cs[j].1[0]) {
                        Err(e) => Err(e),
                        Ok((v, k)) => Ok((ValModel::Variant(name, seq![v]), n + k)),
                    }
                } else {
                    if n < s.len() && s[n] == '(' {
                        Err(ErrModel::TypeMismatch)
                    } else {
                        Ok((ValModel::Variant(name, Seq::empty()), n))
                    }
                }
            }
        },
        TypeModel::Enum(ns) => {
            let n = name_count(s);
            if n <= 0 {
                Err(ErrModel::TypeMismatch)
            } else {
                let name = s.take(n);
                if find_name(ns, name) < 0 {
                    Err(ErrModel::TypeMismatch)
                } else {
                    Ok((ValModel::Enum(name), n))
                }
            }
        },
        TypeModel::Optional(es) => {
            let n = name_count(s);
            if es.len() != 1 {
                Err(ErrModel::TypeMismatch)
            } else if n == 4 && 4 <= s.len() && s.take(4) == kw_none() {
                Ok((ValModel::Optional(Seq::empty()), 4))
            } else if n == 4 && 4 <= s.len() && s.take(4) == kw_some() {
                match sp_payload(s.skip(4), es[0]) {
                    Err(e) => Err(e),
                    Ok((v, k)) => Ok((ValModel::Optional(seq![v]), 4 + k)),
                }
            } else {
                match sp_value(s, es[0]) {
                    Err(e) => Err(e),
                    Ok((v, k)) => Ok((ValModel::Optional(seq![v]), k)),
                }
            }
        },
        TypeModel::Expected(os, es) => {
            let n = name_count(s);
            if n <= 0 || n > s.len() {
                Err(ErrModel::TypeMismatch)
            } else if n == 2 && s.take(2) == kw_ok() {
                if os.len() == 1 {
                    match sp_payload(s.skip(2), os[0]) {
                        Err(e) => Err(e),
                        Ok((v, k)) => Ok((ValModel::Expected(true, seq![v]), 2 + k)),
                    }
                } else {
                    if n < s.len() && s[n] == '(' {
                        Err(ErrModel::TypeMismatch)
                    } else {
                        Ok((ValModel::Expected(true, Seq::empty()), 2))
                    }
                }
            } else if n == 3 && s.take(3) == kw_err() {
                if es.len() == 1 {
                    match sp_payload(s.skip(3), es[0]) {
                        Err(e) => Err(e),
                        Ok((v, k)) => Ok((ValModel::Expected(false, seq![v]), 3 + k)),
                    }
                } else {
                    if n < s.len() && s[n] == '(' {
                        Err(ErrModel::TypeMismatch)
                    } else {
                        Ok((ValModel::Expected(false, Seq::empty()), 3))
                    }
                }
            } else {
                Err(ErrModel::TypeMismatch)
            }
        },
        TypeModel::Flags(ns) => if s.len() > 0 && s[0] == '{' {
            match sp_flags(s.skip(1), ns, Seq::empty()) {
                Err(e) => Err(e),
                Ok((ixs, k)) => Ok((ValModel::Flags(select_names(ns, ixs, 0)), 1 + k)),
            }
        } else {
            Err(ErrModel::TypeMismatch)
        },
        TypeModel::Handle => Err(ErrModel::TypeMismatch),
    }
}

/// Parse comma-separated values of type `te` until the closing character
/// `close`, starting just after the opening bracket. Consumes the closer.
pub open spec fn sp_elems(s: Seq<char>, te: TypeModel, close: char) -> Result<
    (Seq<ValModel>, int),
    ErrModel,
>
    decreases s.len(), te, 1int,
{
    let w = ws_count(s);
    if !(0 <= w <= s.len()) {
        Err(ErrModel::Syntax)
    } else if w < s.len() && s[w] == close {
        Ok((Seq::empty(), w + 1))
    } else {
        match sp_value(s.skip(w), te) {
            Err(e) => Err(e),
            Ok((v, k)) => if !(0 <= k <= s.len() - w) {
                Err(ErrModel::Syntax)
            } else {
                let w2 = ws_count(s.skip(w + k));
                let pos = w + k + w2;
                if !(0 <= w2 && pos <= s.len()) {
                    Err(ErrModel::Syntax)
                } else if pos < s.len() && s[pos] == close {
                    Ok((seq![v], pos + 1))
                } else if pos < s.len() && s[pos] == ',' {
                    match sp_elems(s.skip(pos + 1), te, close) {
                        Err(e) => Err(e),
                        Ok((vs, k2)) => Ok((seq![v] + vs, pos + 1 + k2)),
                    }
                } else {
                    Err(ErrModel::Syntax)
                }
            },
        }
    }
}

/// Parse the components of a tuple against `ts` from position `i`,
/// starting just after the opening parenthesis. Consumes the closer;
/// an arity mismatch is a type mismatch.
pub open spec fn sp_tuple(s: Seq<char>, ts: Seq<TypeModel>, i: int) -> Result<
    (Seq<ValModel>, int),
    ErrModel,
>
    decreases s.len(), ts, 1int,
{
    let w = ws_count(s);
    if !(0 <= w <= s.len() && 0 <= i <= ts.len()) {
        Err(ErrModel::Syntax)
    } else if i == ts.len() {
        if w < s.len() && s[w] == ')' {
            Ok((Seq::empty(), w + 1))
        } else if w >= s.len() {
            Err(ErrModel::Syntax)
        } else {
            Err(ErrModel::TypeMismatch)
        }
    } else {
        match sp_value(s.skip(w), ts[i]) {
            Err(e) => Err(e),
            Ok((v, k)) => if !(0 <= k <= s.len() - w) {
                Err(ErrModel::Syntax)
            } else {
                let w2 = ws_count(s.skip(w + k));
                let pos = w + k + w2;
                if !(0 <= w2 && pos <= s.len()) {
                    Err(ErrModel::Syntax)
                } else if pos < s.len() && s[pos] == ')' {
                    if i == ts.len() - 1 {
                        Ok((seq![v], pos + 1))
                    } else {
                        Err(ErrModel::TypeMismatch)
                    }
                } else if pos < s.len() && s[pos] == ',' && i < ts.len() - 1 {
                    match sp_tuple(s.skip(pos + 1), ts, i + 1) {
                        Err(e) => Err(e),
                        Ok((vs, k2)) => Ok((seq![v] + vs, pos + 1 + k2)),
                    }
                } else if pos < s.len() && s[pos] == ',' {
                    Err(ErrModel::TypeMismatch)
                } else {
                    Err(ErrModel::Syntax)
                }
            },
        }
    }
}

/// Parse `name: value` pairs against the declared fields `tfs` until the
/// closing brace, starting just after the opening brace. Returns the
/// declared-field indices seen with their values, in the order given.
pub open spec fn sp_fields(
    s: Seq<char>,
    tfs: Seq<(Seq<char>, TypeModel)>,
    slots: Seq<Option<ValModel>>,
) -> Result<(Seq<Option<ValModel>>, int), ErrModel>
    decreases s.len(), tfs, 1int,
{
    let w = ws_count(s);
    if !(0 <= w <= s.len()) {
        Err(ErrModel::Syntax)
    } else if w < s.len() && s[w] == '}' {
        Ok((slots, w + 1))
    } else {
        let n = name_count(s.skip(w));
        if n <= 0 {
            Err(ErrModel::Syntax)
        } else {
            let name = s.skip(w).take(n);
            let j = find_name(field_names(tfs), name);
            if j < 0 {
                Err(ErrModel::UnknownField(name))
            } else if slots[j] is Some {
                Err(ErrModel::DuplicateField(name))
            } else {
                let w2 = ws_count(s.skip(w + n));
                let colon = w + n + w2;
                if !(0 <= w2 && colon <= s.len()) {
                    Err(ErrModel::Syntax)
                } else if !(colon < s.len() && s[colon] == ':') {
                    Err(ErrModel::Syntax)
                } else {
                    let w3 = ws_count(s.skip(colon + 1));
                    let vstart = colon + 1 + w3;
                    if !(0 <= w3 && vstart <= s.len()) {
                        Err(ErrModel::Syntax)
                    } else {
                        match sp_value(s.skip(vstart), tfs[j].1) {
                            Err(e) => Err(e),
                            Ok((v, k)) => if !(0 <= k <= s.len() - vstart) {
                                Err(ErrModel::Syntax)
                            } else {
                                let w4 = ws_count(s.skip(vstart + k));
                                let pos = vstart + k + w4;
                                if !(0 <= w4 && pos <= s.len()) {
                                    Err(ErrModel::Syntax)
                                } else if pos < s.len() && s[pos] == '}' {
                                    Ok((slots.update(j, Some(v)), pos + 1))
                                } else if pos < s.len() && s[pos] == ',' {
                                    match sp_fields(s.skip(pos + 1), tfs, slots.update(j, Some(v))) {
                                        Err(e) => Err(e),
                                        Ok((r, k2)) => Ok((r, pos + 1 + k2)),
                                    }
                                } else {
                                    Err(ErrModel::Syntax)
                                }
                            },
                        }
                    }
                }
            }
        }
    }
}

/// Parse flag names against the declared names `ns` until the closing
/// brace, starting just after the opening brace. Repeats are idempotent.
pub open spec fn sp_flags(s: Seq<char>, ns: Seq<Seq<char>>, seen: Seq<int>) -> Result<
    (Seq<int>, int),
    ErrModel,
>
    decreases s.len(), ns, 1int,
{
    let w = ws_count(s);
    if !(0 <= w <= s.len()) {
        Err(ErrModel::Syntax)
    } else if w < s.len() && s[w] == '}' {
        Ok((seen, w + 1))
    } else {
        let n = name_count(s.skip(w));
        if n <= 0 {
            Err(ErrModel::Syntax)
        } else {
            let name = s.skip(w).take(n);
            let j = find_name(ns, name);
            if j < 0 {
                Err(ErrModel::UnknownField(name))
            } else {
                let seen2 = if seen.contains(j) {
                    seen
                } else {
                    seen.push(j)
                };
                let w2 = ws_count(s.skip(w + n));
                let pos = w + n + w2;
                if !(0 <= w2 && pos <= s.len()) {
                    Err(ErrModel::Syntax)
                } else if pos < s.len() && s[pos] == '}' {
                    Ok((seen2, pos + 1))
                } else if pos < s.len() && s[pos] == ',' {
                    match sp_flags(s.skip(pos + 1), ns, seen2) {
                        Err(e) => Err(e),
                        Ok((r, k2)) => Ok((r, pos + 1 + k2)),
                    }
                } else {
                    Err(ErrModel::Syntax)
                }
            }
        }
    }
}

/// Parse a parenthesized payload of type `t`: `( value )` with optional
/// whitespace around the parentheses and the value. A missing opening
/// parenthesis is a type mismatch.
pub open spec fn sp_payload(s: Seq<char>, t: TypeModel) -> Result<(ValModel, int), ErrModel>
    decreases s.len(), t, 1int,
{
    let w0 = ws_count(s);
    if !(0 <= w0 && w0 < s.len() && s[w0] == '(') {
        Err(ErrModel::TypeMismatch)
    } else {
        let w = ws_count(s.skip(w0 + 1));
        if !(0 <= w && w0 + 1 + w <= s.len()) {
            Err(ErrModel::Syntax)
        } else {
            match sp_value(s.skip(w0 + 1 + w), t) {
                Err(e) => Err(e),
                Ok((v, k)) => if !(0 <= k <= s.len() - w0 - 1 - w) {
                    Err(ErrModel::Syntax)
                } else {
                    let w2 = ws_count(s.skip(w0 + 1 + w + k));
                    let pos = w0 + 1 + w + k + w2;
                    if !(0 <= w2 && pos <= s.len()) {
                        Err(ErrModel::Syntax)
                    } else if pos < s.len() && s[pos] == ')' {
                        Ok((v, pos + 1))
                    } else {
                        Err(ErrModel::Syntax)
                    }
                },
            }
        }
    }
}

/// Parse a complete literal of type `t`: surrounding whitespace allowed,
/// anything else after the value is a syntax error.
pub open spec fn sp_complete(s: Seq<char>, t: TypeModel) -> Result<ValModel, ErrModel> {
    let w = ws_count(s);
    if !(0 <= w <= s.len()) {
        Err(ErrModel::Syntax)
    } else {
        match sp_value(s.skip(w), t) {
            Err(e) => Err(e),
            Ok((v, k)) => if !(0 <= k <= s.len() - w) {
                Err(ErrModel::Syntax)
            } else if w + k + ws_count(s.skip(w + k)) == s.len() {
                Ok(v)
            } else {
                Err(ErrModel::Syntax)
            },
        }
    }
}

/// Canonical text of value `v`: the literal grammar with record fields in
/// declaration order and no interior whitespace.
pub open spec fn fm_value(v: ValModel) -> Seq<char>
    decreases v, 0int, 0int,
{
    match v {
        ValModel::Bool(b) => if b {
            kw_true()
        } else {
            kw_false()
        },
        ValModel::S8(x) => fmt_int(x as int),
        ValModel::S16(x) => fmt_int(x as int),
        ValModel::S32(x) => fmt_int(x as int),
        ValModel::S64(x) => fmt_int(x as int),
        ValModel::U8(x) => fmt_u64(x as int),
        ValModel::U16(x) => fmt_u64(x as int),
        ValModel::U32(x) => fmt_u64(x as int),
        ValModel::U64(x) => fmt_u64(x as int),
        ValModel::Char(c) => seq!['\''] + esc_char(c, '\'') + seq!['\''],
        ValModel::Text(s) => seq!['"'] + esc_body(s, '"') + seq!['"'],
        ValModel::List(vs) => seq!['['] + fm_elems(vs, 0) + seq![']'],
        ValModel::Record(fs) => seq!['{'] + fm_fields(fs, 0) + seq!['}'],
        ValModel::Tuple(vs) => seq!['('] + fm_elems(vs, 0) + seq![')'],
        ValModel::Variant(n, p) => if p.len() == 1 {
            n + seq!['('] + fm_value(p[0]) + seq![')']
        } else {
            n
        },
        ValModel::Enum(n) => n,
        ValModel::Optional(p) => if p.len() == 1 {
            kw_some() + seq!['('] + fm_value(p[0]) + seq![')']
        } else {
            kw_none()
        },
        ValModel::Expected(ok, p) => if ok {
            if p.len() == 1 {
                kw_ok() + seq!['('] + fm_value(p[0]) + seq![')']
            } else {
                kw_ok()
            }
        } else {
            if p.len() == 1 {
                kw_err() + seq!['('] + fm_value(p[0]) + seq![')']
            } else {
                kw_err()
            }
        },
        ValModel::Flags(ns) => seq!['{'] + fm_names(ns, 0) + seq!['}'],
        ValModel::Handle(h) => fmt_u64(h as int),
    }
}

/// Canonical comma-separated text of the values `vs` from position `i`.
pub open spec fn fm_elems(vs: Seq<ValModel>, i: int) -> Seq<char>
    decreases vs, 0int, vs.len() - i,
{
    if i < 0 || i >= vs.len() {
        Seq::empty()
    } else if i == vs.len() - 1 {
        fm_value(vs[i])
    } else {
        fm_value(vs[i]) + seq![','] + fm_elems(vs, i + 1)
    }
}

/// Canonical comma-separated `name:value` text of the fields `fs` from
/// position `i`.
pub open spec fn fm_fields(fs: Seq<(Seq<char>, ValModel)>, i: int) -> Seq<char>
    decreases fs, 0int, fs.len() - i,
{
    if i < 0 || i >= fs.len() {
        Seq::empty()
    } else {
        let f = fs[i].0 + seq![':'] + fm_value(fs[i].1);
        if i == fs.len() - 1 {
            f
        } else {
            f + seq![','] + fm_fields(fs, i + 1)
        }
    }
}

/// Canonical comma-separated text of the names `ns` from position `i`.
pub open spec fn fm_names(ns: Seq<Seq<char>>, i: int) -> Seq<char>
    decreases ns.len() - i,
{
    if i < 0 || i >= ns.len() {
        Seq::empty()
    } else if i == ns.len() - 1 {
        ns[i]
    } else {
        ns[i] + seq![','] + fm_names(ns, i + 1)
    }
}

/// The models of a sequence of values.
pub open spec fn models_of(xs: Seq<Value>) -> Seq<ValModel> {
    Seq::new(xs.len(), |i: int| xs[i].model())
}

/// The models of a sequence of named fields.
pub open spec fn field_models(fs: Seq<(Vec<char>, Value)>) -> Seq<(Seq<char>, ValModel)> {
    Seq::new(fs.len(), |i: int| (fs[i].0@, fs[i].1.model()))
}

/// The views of a sequence of names.
pub open spec fn name_views(ns: Seq<Vec<char>>) -> Seq<Seq<char>> {
    Seq::new(ns.len(), |i: int| ns[i]@)
}

/// Append a copy of `s` to `out`.
pub fn push_chars(out: &mut Vec<char>, s: &Vec<char>)
    ensures
        final(out)@ == old(out)@ + s@,
{
    let mut j: usize = 0;
    while j < s.len()
        invariant
            j <= s@.len(),
            out@ == old(out)@ + s@.take(j as int),
        decreases s@.len() - j,
    {
        out.push(s[j]);
        proof {
            assert(s@.take(j + 1) =~= s@.take(j as int).push(s@[j as int]));
        }
        j = j + 1;
    }
    proof {
        assert(s@.take(s@.len() as int) =~= s@);
    }
}

/// Append the canonical escaped body of `s` under quote `q` to `out`.
fn push_escaped(out: &mut Vec<char>, s: &Vec<char>, q: char)
    requires
        q == '"' || q == '\'',
    ensures
        final(out)@ == old(out)@ + esc_body(s@, q),
{
    let mut j: usize = 0;
    proof {
        assert(s@.take(0) =~= Seq::<char>::empty());
        assert(esc_body(Seq::<char>::empty(), q) =~= Seq::<char>::empty());
        assert(out@ =~= old(out)@ + esc_body(s@.take(0), q));
    }
    while j < s.len()
        invariant
            j <= s@.len(),
            q == '"' || q == '\'',
            out@ == old(out)@ + esc_body(s@.take(j as int), q),
        decreases s@.len() - j,
    {
        let c = s[j];
        if c == '\\' || c == q {
            out.push('\\');
            out.push(c);
        } else {
            out.push(c);
        }
        proof {
            assert(s@.take(j + 1) =~= s@.take(j as int).push(s@[j as int]));
            crate::text::lemma_esc_body_snoc(s@.take(j as int), s@[j as int], q);
            assert(out@ =~= old(out)@ + esc_body(s@.take(j + 1), q));
        }
        j = j + 1;
    }
    proof {
        assert(s@.take(s@.len() as int) =~= s@);
    }
}

/// Append the canonical text of `v` to `out`.
pub fn format_value(v: &Value, out: &mut Vec<char>)
    ensures
        final(out)@ == old(out)@ + fm_value(v.model()),
    decreases v, 0int, 0int,
{
    match v {
        Value::Bool(b) => {
            if *b {
                out.push('t');
                out.push('r');
                out.push('u');
                out.push('e');
                assert(out@ =~= old(out)@ + kw_true());
            } else {
                out.push('f');
                out.push('a');
                out.push('l');
                out.push('s');
                out.push('e');
                assert(out@ =~= old(out)@ + kw_false());
            }
        },
        Value::S8(x) => crate::text::fmt_i64_x(*x as i64, out),
        Value::S16(x) => crate::text::fmt_i64_x(*x as i64, out),
        Value::S32(x) => crate::text::fmt_i64_x(*x as i64, out),
        Value::S64(x) => crate::text::fmt_i64_x(*x, out),
        Value::U8(x) => crate::text::fmt_u64_x(*x as u64, out),
        Value::U16(x) => crate::text::fmt_u64_x(*x as u64, out),
        Value::U32(x) => crate::text::fmt_u64_x(*x as u64, out),
        Value::U64(x) => crate::text::fmt_u64_x(*x, out),
        Value::Char(c) => {
            out.push('\'');
            if *c == '\\' || *c == '\'' {
                out.push('\\');
                out.push(*c);
            } else {
                out.push(*c);
            }
            out.push('\'');
            assert(out@ =~= old(out)@ + (seq!['\''] + esc_char(v.model()->Char_0, '\'')
                + seq!['\'']));
        },
        Value::Text(st) => {
            out.push('"');
            push_escaped(out, st, '"');
            out.push('"');
            assert(out@ =~= old(out)@ + (seq!['"'] + esc_body(st@, '"') + seq!['"']));
        },
        Value::List(xs) => {
            out.push('[');
            format_elems(xs, 0, out);
            out.push(']');
            proof {
                assert(models_of(xs@) =~= v.model()->List_0);
                assert(out@ =~= old(out)@ + (seq!['['] + fm_elems(models_of(xs@), 0) + seq![']']));
            }
        },
        Value::Record(fs) => {
            out.push('{');
            format_fields(fs, 0, out);
            out.push('}');
            proof {
                assert(field_models(fs@) =~= v.model()->Record_0);
                assert(out@ =~= old(out)@ + (seq!['{'] + fm_fields(field_models(fs@), 0)
                    + seq!['}']));
            }
        },
        Value::Tuple(xs) => {
            out.push('(');
            format_elems(xs, 0, out);
            out.push(')');
            proof {
                assert(models_of(xs@) =~= v.model()->Tuple_0);
                assert(out@ =~= old(out)@ + (seq!['('] + fm_elems(models_of(xs@), 0) + seq![')']));
            }
        },
        Value::Variant(n, p) => {
            push_chars(out, n);
            match p {
                Some(b) => {
                    out.push('(');
                    format_value(b, out);
                    out.push(')');
                    assert(out@ =~= old(out)@ + (n@ + seq!['('] + fm_value((**b).model())
                        + seq![')']));
                },
                None => {
                    assert(out@ =~= old(out)@ + n@);
                },
            }
        },
        Value::Enum(n) => {
            push_chars(out, n);
        },
        Value::Optional(p) => {
            match p {
                Some(b) => {
                    out.push('s');
                    out.push('o');
                    out.push('m');
                    out.push('e');
                    out.push('(');
                    format_value(b, out);
                    out.push(')');
                    assert(out@ =~= old(out)@ + (kw_some() + seq!['('] + fm_value((**b).model())
                        + seq![')']));
                },
                None => {
                    out.push('n');
                    out.push('o');
                    out.push('n');
                    out.push('e');
                    assert(out@ =~= old(out)@ + kw_none());
                },
            }
        },
        Value::Expected(ok, p) => {
            if *ok {
                out.push('o');
                out.push('k');
            } else {
                out.push('e');
                out.push('r');
                out.push('r');
            }
            match p {
                Some(b) => {
                    out.push('(');
                    format_value(b, out);
                    out.push(')');
                    if *ok {
                        assert(out@ =~= old(out)@ + (kw_ok() + seq!['('] + fm_value((**b).model())
                            + seq![')']));
                    } else {
                        assert(out@ =~= old(out)@ + (kw_err() + seq!['('] + fm_value((**b).model())
                            + seq![')']));
                    }
                },
                None => {
                    if *ok {
                        assert(out@ =~= old(out)@ + kw_ok());
                    } else {
                        assert(out@ =~= old(out)@ + kw_err());
                    }
                },
            }
        },
        Value::Flags(ns) => {
            out.push('{');
            format_names(ns, 0, out);
            out.push('}');
            proof {
                assert(name_views(ns@) =~= v.model()->Flags_0);
                assert(out@ =~= old(out)@ + (seq!['{'] + fm_names(name_views(ns@), 0)
                    + seq!['}']));
            }
        },
        Value::Handle(h) => crate::text::fmt_u64_x(*h as u64, out),
    }
}

/// Append the canonical comma-separated text of `xs[i..]` to `out`.
pub fn format_elems(xs: &Vec<Value>, i: usize, out: &mut Vec<char>)
    ensures
        final(out)@ == old(out)@ + fm_elems(models_of(xs@), i as int),
    decreases xs, 0int, xs@.len() - i,
{
    if i < xs.len() {
        format_value(&xs[i], out);
        if i + 1 < xs.len() {
            out.push(',');
            format_elems(xs, i + 1, out);
            assert(out@ =~= old(out)@ + (fm_value(models_of(xs@)[i as int]) + seq![',']
                + fm_elems(models_of(xs@), i as int + 1)));
        } else {
            assert(out@ =~= old(out)@ + fm_value(models_of(xs@)[i as int]));
        }
    }
}

/// Append the canonical comma-separated `name:value` text of `fs[i..]` to
/// `out`.
fn format_fields(fs: &Vec<(Vec<char>, Value)>, i: usize, out: &mut Vec<char>)
    ensures
        final(out)@ == old(out)@ + fm_fields(field_models(fs@), i as int),
    decreases fs, 0int, fs@.len() - i,
{
    if i < fs.len() {
        push_chars(out, &fs[i].0);
        out.push(':');
        format_value(&fs[i].1, out);
        if i + 1 < fs.len() {
            out.push(',');
            format_fields(fs, i + 1, out);
            assert(out@ =~= old(out)@ + (field_models(fs@)[i as int].0 + seq![':'] + fm_value(
                field_models(fs@)[i as int].1,
            ) + seq![','] + fm_fields(field_models(fs@), i as int + 1)));
        } else {
            assert(out@ =~= old(out)@ + (field_models(fs@)[i as int].0 + seq![':'] + fm_value(
                field_models(fs@)[i as int].1,
            )));
        }
    }
}

/// Append the canonical comma-separated text of the names `ns[i..]` to
/// `out`.
fn format_names(ns: &Vec<Vec<char>>, i: usize, out: &mut Vec<char>)
    ensures
        final(out)@ == old(out)@ + fm_names(name_views(ns@), i as int),
    decreases ns@.len() - i,
{
    if i < ns.len() {
        push_chars(out, &ns[i]);
        if i + 1 < ns.len() {
            out.push(',');
            format_names(ns, i + 1, out);
            assert(out@ =~= old(out)@ + (name_views(ns@)[i as int] + seq![','] + fm_names(
                name_views(ns@),
                i as int + 1,
            )));
        } else {
            assert(out@ =~= old(out)@ + name_views(ns@)[i as int]);
        }
    }
}

/// The canonical text of `v`, as a fresh character vector.
pub fn format_value_text(v: &Value) -> (r: Vec<char>)
    ensures
        r@ == fm_value(v.model()),
{
    let mut out: Vec<char> = Vec::new();
    format_value(v, &mut out);
    out
}


/// The models of a slot vector.
pub open spec fn slot_models(v: Seq<Option<Value>>) -> Seq<Option<ValModel>> {
    Seq::new(
        v.len(),
        |i: int|
            match v[i] {
                Some(x) => Some(x.model()),
                None => None,
            },
    )
}

/// A copy of `s[a..b]`.
pub fn copy_range(s: &[char], a: usize, b: usize) -> (r: Vec<char>)
    requires
        a <= b <= s@.len(),
    ensures
        r@ == s@.subrange(a as int, b as int),
{
    let mut out: Vec<char> = Vec::new();
    let mut j: usize = a;
    while j < b
        invariant
            a <= j <= b <= s@.len(),
            out@ == s@.subrange(a as int, j as int),
        decreases b - j,
    {
        out.push(s[j]);
        proof {
            assert(s@.subrange(a as int, j + 1) =~= s@.subrange(a as int, j as int).push(
                s@[j as int],
            ));
        }
        j = j + 1;
    }
    out
}

/// Whether two character vectors hold the same text.
pub fn chars_eq(a: &Vec<char>, b: Ghost<Seq<char>>, bx: &[char], lo: usize, hi: usize) -> (r: bool)
    requires
        b@ == bx@.subrange(lo as int, hi as int),
        lo <= hi <= bx@.len(),
    ensures
        r == (a@ == b@),
{
    if a.len() != hi - lo {
        proof {
            assert(b@.len() == hi - lo);
        }
        return false;
    }
    let mut j: usize = 0;
    while j < a.len()
        invariant
            j <= a@.len(),
            a@.len() == hi - lo,
            lo <= hi <= bx@.len(),
            b@ == bx@.subrange(lo as int, hi as int),
            forall|k: int| 0 <= k < j ==> a@[k] == b@[k],
        decreases a@.len() - j,
    {
        if a[j] != bx[lo + j] {
            proof {
                assert(b@[j as int] == bx@[lo + j]);
            }
            return false;
        }
        proof {
            assert(b@[j as int] == bx@[lo + j]);
        }
        j = j + 1;
    }
    proof {
        assert(a@ =~= b@);
    }
    true
}

/// The decoded escape for `c`, if valid.
fn unesc_x(c: char) -> (r: Option<char>)
    ensures
        r == unesc(c),
{
    if c == '\\' {
        Some('\\')
    } else if c == '"' {
        Some('"')
    } else if c == '\'' {
        Some('\'')
    } else if c == 'n' {
        Some('\n')
    } else if c == 'r' {
        Some('\r')
    } else if c == 't' {
        Some('\t')
    } else {
        None
    }
}

/// Scan a quoted body from `i` up to the unescaped quote `q`, appending the
/// decoded characters to `out`; returns the index of the closing quote.
pub fn scan_body(s: &[char], i: usize, q: char, out: &mut Vec<char>) -> (r: Result<usize, CallError>)
    requires
        i <= s@.len(),
    ensures
        ({
            match (r, sp_body(s@.skip(i as int), q)) {
                (Ok(j), Ok((body, k))) => {
                    &&& i <= j < s@.len()
                    &&& j == i + k
                    &&& s@[j as int] == q
                    &&& final(out)@ == old(out)@ + body
                },
                (Err(e), Err(em)) => e.model() == em,
                _ => false,
            }
        }),
    decreases s@.len() - i,
{
    let ghost sp = sp_body(s@.skip(i as int), q);
    if i >= s.len() {
        return Err(CallError::Syntax);
    }
    let c = s[i];
    proof {
        assert(s@.skip(i as int)[0] == s@[i as int]);
    }
    if c == q {
        Ok(i)
    } else if c == '\\' {
        if i + 1 >= s.len() {
            return Err(CallError::Syntax);
        }
        proof {
            assert(s@.skip(i as int)[1] == s@[i + 1]);
        }
        match unesc_x(s[i + 1]) {
            None => Err(CallError::Literal),
            Some(c2) => {
                out.push(c2);
                proof {
                    assert(s@.skip(i as int).skip(2) =~= s@.skip(i + 2));
                }
                match scan_body(s, i + 2, q, out) {
                    Err(e) => Err(e),
                    Ok(j) => {
                        proof {
                            let (body2, k2) = sp_body(s@.skip(i + 2), q)->Ok_0;
                            assert(out@ =~= old(out)@ + (seq![c2] + body2));
                        }
                        Ok(j)
                    },
                }
            },
        }
    } else {
        out.push(c);
        proof {
            assert(s@.skip(i as int).drop_first() =~= s@.skip(i + 1));
        }
        match scan_body(s, i + 1, q, out) {
            Err(e) => Err(e),
            Ok(j) => {
                proof {
                    let (body2, k2) = sp_body(s@.skip(i + 1), q)->Ok_0;
                    assert(out@ =~= old(out)@ + (seq![c] + body2));
                }
                Ok(j)
            },
        }
    }
}

/// Parse a decimal literal at `i` as a sign and magnitude, admitting
/// magnitudes up to `neg_cap` when negative and `pos_cap` when positive.
pub fn parse_number(s: &[char], i: usize, neg_cap: u64, pos_cap: u64) -> (r: Result<
    (bool, u64, usize),
    CallError,
>)
    requires
        i <= s@.len(),
    ensures
        ({
            match (r, sp_sint(s@.skip(i as int), -(neg_cap as int), pos_cap as int)) {
                (Ok((neg, m, j)), Ok((v, k))) => {
                    &&& i <= j <= s@.len()
                    &&& j == i + k
                    &&& if neg {
                        v == -(m as int) && m <= neg_cap
                    } else {
                        v == m as int && m <= pos_cap
                    }
                },
                (Err(e), Err(em)) => e.model() == em,
                _ => false,
            }
        }),
{
    let ghost d0 = s@.skip(i as int);
    if i < s.len() && s[i] == '-' {
        proof {
            assert(d0[0] == s@[i as int]);
        }
        let j = crate::text::scan_digits(s, i + 1);
        proof {
            assert(d0.skip(1) =~= s@.skip(i + 1));
        }
        if j == i + 1 {
            return Err(CallError::TypeMismatch);
        }
        proof {
            crate::text::lemma_digits_count_spec(s@.skip(i + 1));
            assert forall|k: int| i + 1 <= k < j implies is_digit(#[trigger] s@[k]) by {
                assert(s@[k] == s@.skip(i + 1)[k - i - 1]);
            }
        }
        match crate::text::digits_to_u64(s, i + 1, j) {
            None => {
                proof {
                    assert(s@.skip(i + 1).take(j - i - 1) =~= s@.skip(i + 1).take(j - (i + 1)));
                }
                Err(CallError::Range)
            },
            Some(m) => {
                if m > neg_cap {
                    Err(CallError::Range)
                } else {
                    Ok((true, m, j))
                }
            },
        }
    } else {
        proof {
            if i < s@.len() {
                assert(d0[0] == s@[i as int]);
            }
        }
        let j = crate::text::scan_digits(s, i);
        if j == i {
            return Err(CallError::TypeMismatch);
        }
        proof {
            crate::text::lemma_digits_count_spec(s@.skip(i as int));
            assert forall|k: int| i <= k < j implies is_digit(#[trigger] s@[k]) by {
                assert(s@[k] == s@.skip(i as int)[k - i]);
            }
        }
        match crate::text::digits_to_u64(s, i, j) {
            None => Err(CallError::Range),
            Some(m) => {
                if m > pos_cap {
                    Err(CallError::Range)
                } else {
                    Ok((false, m, j))
                }
            },
        }
    }
}


/// Index of the name `s[a..b]` among `ns`, mirroring [`find_name`]; `None`
/// when absent.
pub fn find_name_x(ns: &Vec<Vec<char>>, s: &[char], a: usize, b: usize) -> (r: Option<usize>)
    requires
        a <= b <= s@.len(),
    ensures
        ({
            let fr = find_name(name_views(ns@), s@.subrange(a as int, b as int));
            match r {
                Some(j) => j < ns@.len() && fr == j as int,
                None => fr == -1,
            }
        }),
{
    let ghost target = s@.subrange(a as int, b as int);
    let mut j: usize = 0;
    while j < ns.len()
        invariant
            j <= ns@.len(),
            a <= b <= s@.len(),
            target == s@.subrange(a as int, b as int),
            forall|k: int| 0 <= k < j ==> name_views(ns@)[k] != target,
        decreases ns@.len() - j,
    {
        if chars_eq(&ns[j], Ghost(target), s, a, b) {
            proof {
                lemma_find_first(name_views(ns@), target, j as int);
            }
            return Some(j);
        }
        j = j + 1;
    }
    proof {
        lemma_find_absent(name_views(ns@), target);
    }
    None
}

/// `find_name` returns the first index whose name matches.
pub proof fn lemma_find_first(ns: Seq<Seq<char>>, n: Seq<char>, j: int)
    requires
        0 <= j < ns.len(),
        ns[j] == n,
        forall|k: int| 0 <= k < j ==> ns[k] != n,
    ensures
        find_name(ns, n) == j,
    decreases ns.len(),
{
    if j > 0 {
        assert forall|k: int| 0 <= k < j - 1 implies ns.drop_first()[k] != n by {
            assert(ns.drop_first()[k] == ns[k + 1]);
        }
        assert(ns.drop_first()[j - 1] == ns[j]);
        lemma_find_first(ns.drop_first(), n, j - 1);
    }
}

/// `find_name` reports absence when no name matches.
pub proof fn lemma_find_absent(ns: Seq<Seq<char>>, n: Seq<char>)
    requires
        forall|k: int| 0 <= k < ns.len() ==> ns[k] != n,
    ensures
        find_name(ns, n) == -1,
    decreases ns.len(),
{
    if ns.len() > 0 {
        assert forall|k: int| 0 <= k < ns.drop_first().len() implies ns.drop_first()[k] != n by {
            assert(ns.drop_first()[k] == ns[k + 1]);
        }
        lemma_find_absent(ns.drop_first(), n);
    }
}


/// The indices held in an index vector.
pub open spec fn ixs_of(v: Seq<usize>) -> Seq<int> {
    Seq::new(v.len(), |i: int| v[i] as int)
}

/// A copy of `v`.
pub fn copy_chars(v: &Vec<char>) -> (r: Vec<char>)
    ensures
        r@ == v@,
{
    let mut out: Vec<char> = Vec::new();
    push_chars(&mut out, v);
    out
}

/// Whether `seen` holds the index `j`.
pub fn contains_ix(seen: &Vec<usize>, j: usize) -> (r: bool)
    ensures
        r == ixs_of(seen@).contains(j as int),
{
    let mut k: usize = 0;
    while k < seen.len()
        invariant
            k <= seen@.len(),
            forall|m: int| 0 <= m < k ==> ixs_of(seen@)[m] != j as int,
        decreases seen@.len() - k,
    {
        if seen[k] == j {
            assert(ixs_of(seen@)[k as int] == j as int);
            return true;
        }
        k = k + 1;
    }
    proof {
        if ixs_of(seen@).contains(j as int) {
            let m = choose|m: int| 0 <= m < ixs_of(seen@).len() && ixs_of(seen@)[m] == j as int;
        }
    }
    false
}

/// The names of `ns` whose indices occur in `seen`, from position `k` on.
pub fn select_names_x(ns: &Vec<Vec<char>>, seen: &Vec<usize>, k: usize) -> (r: Vec<Vec<char>>)
    requires
        k <= ns@.len(),
    ensures
        name_views(r@) == select_names(name_views(ns@), ixs_of(seen@), k as int),
    decreases ns@.len() - k,
{
    if k >= ns.len() {
        let out: Vec<Vec<char>> = Vec::new();
        proof {
            assert(name_views(out@) =~= select_names(name_views(ns@), ixs_of(seen@), k as int));
        }
        out
    } else {
        let mut rest = select_names_x(ns, seen, k + 1);
        if contains_ix(seen, k) {
            let mut out: Vec<Vec<char>> = Vec::new();
            out.push(copy_chars(&ns[k]));
            let mut m: usize = 0;
            while m < rest.len()
                invariant
                    m <= rest@.len(),
                    out@.len() == m + 1,
                    out@[0]@ == ns@[k as int]@,
                    forall|q: int| 0 <= q < m ==> #[trigger] out@[q + 1]@ == rest@[q]@,
                decreases rest@.len() - m,
            {
                out.push(copy_chars(&rest[m]));
                m = m + 1;
            }
            proof {
                assert(name_views(out@).len() == 1 + name_views(rest@).len());
                assert forall|q: int| 0 <= q < name_views(out@).len() implies name_views(out@)[q]
                    == (seq![ns@[k as int]@] + name_views(rest@))[q] by {
                    if q > 0 {
                        assert(out@[(q - 1) + 1]@ == rest@[q - 1]@);
                    }
                }
                assert(name_views(out@) =~= seq![ns@[k as int]@] + name_views(rest@));
                assert(name_views(out@) =~= select_names(
                    name_views(ns@),
                    ixs_of(seen@),
                    k as int,
                ));
            }
            out
        } else {
            proof {
                assert(name_views(rest@) =~= select_names(
                    name_views(ns@),
                    ixs_of(seen@),
                    k as int,
                ));
            }
            rest
        }
    }
}

/// The first unfilled slot from `i` on is reported by [`first_unfilled`].
pub proof fn lemma_first_unfilled_at(slots: Seq<Option<ValModel>>, i: int, k: int)
    requires
        0 <= i <= k < slots.len(),
        forall|j: int| i <= j < k ==> (#[trigger] slots[j]) is Some,
        slots[k] is None,
    ensures
        first_unfilled(slots, i) == k,
    decreases k - i,
{
    if i < k {
        lemma_first_unfilled_at(slots, i + 1, k);
    }
}

/// When every slot from `i` on is filled, none is reported.
pub proof fn lemma_none_unfilled(slots: Seq<Option<ValModel>>, i: int)
    requires
        0 <= i <= slots.len(),
        forall|j: int| i <= j < slots.len() ==> (#[trigger] slots[j]) is Some,
    ensures
        first_unfilled(slots, i) == -1,
    decreases slots.len() - i,
{
    if i < slots.len() {
        lemma_none_unfilled(slots, i + 1);
    }
}


} // verus!
