//! The executable type-directed parser: the mirror of the specification
//! parser [`crate::codec::sp_value`], proved equal to it.
use crate::codec::{
    case_names, chars_eq, copy_chars, field_names, find_name, first_unfilled, fm_value, ixs_of,
    kw_err, kw_false, kw_none, kw_ok, kw_some, kw_true, models_of, name_views, select_names,
    select_names_x, slot_models, slot_val, sp_complete, sp_elems, sp_fields, sp_flags, sp_payload,
    sp_sint, sp_tuple, sp_value, starts,
};
use crate::error::{CallError, ErrModel};
use crate::text::{scan_name, scan_ws, name_count, ws_count};
use crate::value::{TypeModel, ValModel, Value, ValueType};
use vstd::prelude::*;

verus! {

broadcast use vstd::seq::group_seq_axioms, vstd::seq_lib::group_seq_lib_default, vstd::std_specs::vec::group_vec_axioms;

/// Parse one value of type `t` at position `i`, mirroring the
/// specification parser exactly: on success the returned value and new
/// position are the ones the specification gives, and on failure the
/// error kind is the one the specification gives.
#[verifier::rlimit(100)]
#[verifier::spinoff_prover]
pub fn parse_value(s: &[char], i: usize, t: &ValueType) -> (r: Result<(Value, usize), CallError>)
    requires
        i <= s@.len(),
    ensures
        ({
            match (r, sp_value(s@.skip(i as int), t.model())) {
                (Ok((v, j)), Ok((vm, k))) => i <= j <= s@.len() && j == i + k && v.model() == vm,
                (Err(e), Err(em)) => e.model() == em,
                _ => false,
            }
        }),
    decreases s@.len() - i, *t, 9int,
{
    let ghost suf = s@.skip(i as int);
    match t {
        ValueType::Bool => parse_bool_form(s, i, t),
        ValueType::Char => parse_char_form(s, i, t),
        ValueType::Text => parse_text_form(s, i, t),
        ValueType::List(..) => parse_list_form(s, i, t),
        ValueType::Tuple(..) => parse_tuple_form(s, i, t),
        ValueType::S8 | ValueType::S16 | ValueType::S32 | ValueType::S64 | ValueType::U8
            | ValueType::U16 | ValueType::U32 | ValueType::U64 => {
            let r = parse_numeric(s, i, t);
            proof {
                assert(match (r, sp_value(s@.skip(i as int), t.model())) {
                    (Ok((v, j)), Ok((vm, k))) => i <= j <= s@.len() && j == i + k && v.model()
                        == vm,
                    (Err(e), Err(em)) => e.model() == em,
                    _ => false,
                });
            }
            r
        },
        ValueType::Handle => {
            proof {
                assert(sp_value(suf, t.model()) == Err::<(ValModel, int), ErrModel>(
                    ErrModel::TypeMismatch,
                ));
            }
            Err(CallError::TypeMismatch)
        },
        _ => {
            let r = parse_named(s, i, t);
            proof {
                assert(match (r, sp_value(s@.skip(i as int), t.model())) {
                    (Ok((v, j)), Ok((vm, k))) => i <= j <= s@.len() && j == i + k && v.model()
                        == vm,
                    (Err(e), Err(em)) => e.model() == em,
                    _ => false,
                });
            }
            r
        },
    }
}



/// Parse a boolean literal.
#[verifier::rlimit(100)]
#[verifier::spinoff_prover]
fn parse_bool_form(s: &[char], i: usize, t: &ValueType) -> (r: Result<(Value, usize), CallError>)
    requires
        i <= s@.len(),
        t is Bool,
    ensures
        ({
            match (r, sp_value(s@.skip(i as int), t.model())) {
                (Ok((v, j)), Ok((vm, k))) => i <= j <= s@.len() && j == i + k && v.model() == vm,
                (Err(e), Err(em)) => e.model() == em,
                _ => false,
            }
        }),
    decreases s@.len() - i, *t, 8int,
{
    let ghost suf = s@.skip(i as int);
    match t {
        ValueType::Bool => {
            if s.len() - i >= 4 && s[i] == 't' && s[i + 1] == 'r' && s[i + 2] == 'u' && s[i + 3]
                == 'e' {
                proof {
                    assert(suf[0] == s@[i as int] && suf[1] == s@[i + 1] && suf[2] == s@[i + 2]
                        && suf[3] == s@[i + 3]);
                    assert(suf.take(4) =~= kw_true());
                }
                proof {
                    assert(sp_value(suf, t.model()) == Ok::<(ValModel, int), ErrModel>(
                        (ValModel::Bool(true), 4int),
                    ));
                }
                Ok((Value::Bool(true), i + 4))
            } else if s.len() - i >= 5 && s[i] == 'f' && s[i + 1] == 'a' && s[i + 2] == 'l' && s[i
                + 3] == 's' && s[i + 4] == 'e' {
                proof {
                    assert(suf[0] == s@[i as int] && suf[1] == s@[i + 1] && suf[2] == s@[i + 2]
                        && suf[3] == s@[i + 3] && suf[4] == s@[i + 4]);
                    assert(suf.take(5) =~= kw_false());
                    if starts(suf, kw_true()) {
                        assert(suf.take(4)[0] == suf[0]);
                    }
                }
                proof {
                    assert(sp_value(suf, t.model()) == Ok::<(ValModel, int), ErrModel>(
                        (ValModel::Bool(false), 5int),
                    ));
                }
                Ok((Value::Bool(false), i + 5))
            } else {
                proof {
                    if starts(suf, kw_true()) {
                        assert(suf[0] == kw_true()[0] && suf[1] == kw_true()[1] && suf[2]
                            == kw_true()[2] && suf[3] == kw_true()[3]) by {
                            assert(suf.take(4)[0] == suf[0] && suf.take(4)[1] == suf[1]
                                && suf.take(4)[2] == suf[2] && suf.take(4)[3] == suf[3]);
                        }
                        assert(suf[0] == s@[i as int] && suf[1] == s@[i + 1] && suf[2] == s@[i + 2]
                            && suf[3] == s@[i + 3]);
                        assert(false);
                    }
                    if starts(suf, kw_false()) {
                        assert(suf[0] == kw_false()[0] && suf[1] == kw_false()[1] && suf[2]
                            == kw_false()[2] && suf[3] == kw_false()[3] && suf[4]
                            == kw_false()[4]) by {
                            assert(suf.take(5)[0] == suf[0] && suf.take(5)[1] == suf[1]
                                && suf.take(5)[2] == suf[2] && suf.take(5)[3] == suf[3]
                                && suf.take(5)[4] == suf[4]);
                        }
                        assert(false);
                    }
                    assert(sp_value(suf, t.model()) == Err::<(ValModel, int), ErrModel>(
                        ErrModel::TypeMismatch,
                    ));
                }
                Err(CallError::TypeMismatch)
            }
        },
        _ => {
            proof {
                assert(false);
            }
            Err(CallError::TypeMismatch)
        },
    }
}

/// The model of a character value is the character.
proof fn lemma_model_char(c: char)
    ensures
        Value::Char(c).model() == ValModel::Char(c),
{
}

/// Parse a character literal.
#[verifier::rlimit(100)]
#[verifier::spinoff_prover]
fn parse_char_form(s: &[char], i: usize, t: &ValueType) -> (r: Result<(Value, usize), CallError>)
    requires
        i <= s@.len(),
        t is Char,
    ensures
        ({
            match (r, sp_value(s@.skip(i as int), t.model())) {
                (Ok((v, j)), Ok((vm, k))) => i <= j <= s@.len() && j == i + k && v.model() == vm,
                (Err(e), Err(em)) => e.model() == em,
                _ => false,
            }
        }),
    decreases s@.len() - i, *t, 8int,
{
    let ghost suf = s@.skip(i as int);
    match t {
        ValueType::Char => {
            if i < s.len() && s[i] == '\'' {
                proof {
                    assert(suf[0] == s@[i as int]);
                    assert(suf.skip(1) =~= s@.skip(i + 1));
                }
                let mut body: Vec<char> = Vec::new();
                match crate::codec::scan_body(s, i + 1, '\'', &mut body) {
                    Err(e) => {
                        proof {
                            assert(sp_value(suf, t.model()) == Err::<(ValModel, int), ErrModel>(
                                crate::text::sp_body(s@.skip(i + 1), '\'')->Err_0,
                            ));
                        }
                        Err(e)
                    },
                    Ok(j) => {
                        proof {
                            let (bs, k) = crate::text::sp_body(s@.skip(i + 1), '\'')->Ok_0;
                            assert(body@ =~= bs);
                        }
                        if body.len() == 1 {
                            let c0 = body[0];
                            proof {
                                let (bs, k) = crate::text::sp_body(s@.skip(i + 1), '\'')->Ok_0;
                                lemma_model_char(c0);
                                assert(crate::text::sp_body(s@.skip(i + 1), '\'') is Ok);
                                assert(body@ == bs);
                                assert(c0 == body@[0]);
                                assert(c0 == bs[0]);
                                assert(Value::Char(c0).model() == ValModel::Char(c0));
                                assert(Value::Char(c0).model() == ValModel::Char(bs[0]));
                                assert(sp_value(s@.skip(i as int), t.model()) == Ok::<
                                    (ValModel, int),
                                    ErrModel,
                                >((ValModel::Char(bs[0]), 1 + k + 1)));
                                assert(j + 1 == i + (1 + k + 1));
                            }
                            Ok((Value::Char(c0), j + 1))
                        } else {
                            proof {
                                assert(sp_value(suf, t.model()) == Err::<
                                    (ValModel, int),
                                    ErrModel,
                                >(ErrModel::TypeMismatch));
                            }
                            Err(CallError::TypeMismatch)
                        }
                    },
                }
            } else {
                proof {
                    if suf.len() > 0 {
                        assert(suf[0] == s@[i as int]);
                    }
                    assert(sp_value(suf, t.model()) == Err::<(ValModel, int), ErrModel>(
                        ErrModel::TypeMismatch,
                    ));
                }
                Err(CallError::TypeMismatch)
            }
        },
        _ => {
            proof {
                assert(false);
            }
            Err(CallError::TypeMismatch)
        },
    }
}

/// Parse a text literal.
#[verifier::rlimit(100)]
#[verifier::spinoff_prover]
fn parse_text_form(s: &[char], i: usize, t: &ValueType) -> (r: Result<(Value, usize), CallError>)
    requires
        i <= s@.len(),
        t is Text,
    ensures
        ({
            match (r, sp_value(s@.skip(i as int), t.model())) {
                (Ok((v, j)), Ok((vm, k))) => i <= j <= s@.len() && j == i + k && v.model() == vm,
                (Err(e), Err(em)) => e.model() == em,
                _ => false,
            }
        }),
    decreases s@.len() - i, *t, 8int,
{
    let ghost suf = s@.skip(i as int);
    match t {
        ValueType::Text => {
            if i < s.len() && s[i] == '"' {
                proof {
                    assert(suf[0] == s@[i as int]);
                    assert(suf.skip(1) =~= s@.skip(i + 1));
                }
                let mut body: Vec<char> = Vec::new();
                match crate::codec::scan_body(s, i + 1, '"', &mut body) {
                    Err(e) => {
                        proof {
                            assert(sp_value(suf, t.model()) == Err::<(ValModel, int), ErrModel>(
                                crate::text::sp_body(s@.skip(i + 1), '"')->Err_0,
                            ));
                        }
                        Err(e)
                    },
                    Ok(j) => {
                        proof {
                            let (bs, k) = crate::text::sp_body(s@.skip(i + 1), '"')->Ok_0;
                            assert(body@ =~= bs);
                        }
                        proof {
                            let (bs, k) = crate::text::sp_body(s@.skip(i + 1), '"')->Ok_0;
                            assert(sp_value(suf, t.model()) == Ok::<(ValModel, int), ErrModel>(
                                (ValModel::Text(bs), 1 + k + 1),
                            ));
                        }
                        Ok((Value::Text(body), j + 1))
                    },
                }
            } else {
                proof {
                    if suf.len() > 0 {
                        assert(suf[0] == s@[i as int]);
                    }
                    assert(sp_value(suf, t.model()) == Err::<(ValModel, int), ErrModel>(
                        ErrModel::TypeMismatch,
                    ));
                }
                Err(CallError::TypeMismatch)
            }
        },
        _ => {
            proof {
                assert(false);
            }
            Err(CallError::TypeMismatch)
        },
    }
}

/// Parse a list literal.
#[verifier::rlimit(100)]
#[verifier::spinoff_prover]
fn parse_list_form(s: &[char], i: usize, t: &ValueType) -> (r: Result<(Value, usize), CallError>)
    requires
        i <= s@.len(),
        t is List,
    ensures
        ({
            match (r, sp_value(s@.skip(i as int), t.model())) {
                (Ok((v, j)), Ok((vm, k))) => i <= j <= s@.len() && j == i + k && v.model() == vm,
                (Err(e), Err(em)) => e.model() == em,
                _ => false,
            }
        }),
    decreases s@.len() - i, *t, 8int,
{
    let ghost suf = s@.skip(i as int);
    match t {
        ValueType::List(et) => {
            if i < s.len() && s[i] == '[' {
                proof {
                    assert(suf[0] == s@[i as int]);
                    assert(suf.skip(1) =~= s@.skip(i + 1));
                }
                match parse_elems(s, i + 1, et) {
                    Err(e) => {
                        proof {
                            assert(sp_value(suf, t.model()) == Err::<(ValModel, int), ErrModel>(
                                e.model(),
                            ));
                        }
                        Err(e)
                    },
                    Ok((vs, j)) => {
                        proof {
                            assert(t.model()->List_0[0] == (**et).model());
                            assert(models_of(vs@) =~= models_of(vs@));
                        }
                        let rv = Value::List(vs);
                        proof {
                            assert(rv.model()->List_0 =~= models_of(rv->List_0@));
                            assert(sp_value(suf, t.model()) == Ok::<(ValModel, int), ErrModel>(
                                (rv.model(), (j - i) as int),
                            ));
                        }
                        Ok((rv, j))
                    },
                }
            } else {
                proof {
                    if suf.len() > 0 {
                        assert(suf[0] == s@[i as int]);
                    }
                    assert(sp_value(suf, t.model()) == Err::<(ValModel, int), ErrModel>(
                        ErrModel::TypeMismatch,
                    ));
                }
                Err(CallError::TypeMismatch)
            }
        },
        _ => {
            proof {
                assert(false);
            }
            Err(CallError::TypeMismatch)
        },
    }
}

/// Parse a tuple literal.
#[verifier::rlimit(100)]
#[verifier::spinoff_prover]
fn parse_tuple_form(s: &[char], i: usize, t: &ValueType) -> (r: Result<(Value, usize), CallError>)
    requires
        i <= s@.len(),
        t is Tuple,
    ensures
        ({
            match (r, sp_value(s@.skip(i as int), t.model())) {
                (Ok((v, j)), Ok((vm, k))) => i <= j <= s@.len() && j == i + k && v.model() == vm,
                (Err(e), Err(em)) => e.model() == em,
                _ => false,
            }
        }),
    decreases s@.len() - i, *t, 8int,
{
    let ghost suf = s@.skip(i as int);
    match t {
        ValueType::Tuple(ts) => {
            if i < s.len() && s[i] == '(' {
                proof {
                    assert(suf[0] == s@[i as int]);
                    assert(suf.skip(1) =~= s@.skip(i + 1));
                    assert(Seq::new(ts@.len(), |q: int| ts@[q].model()) =~= t.model()->Tuple_0);
                }
                match parse_tuple(s, i + 1, ts, 0) {
                    Err(e) => {
                        proof {
                            assert(sp_value(suf, t.model()) == Err::<(ValModel, int), ErrModel>(
                                e.model(),
                            ));
                        }
                        Err(e)
                    },
                    Ok((vs, j)) => {
                        let rv = Value::Tuple(vs);
                        proof {
                            assert(rv.model()->Tuple_0 =~= models_of(rv->Tuple_0@));
                            assert(sp_value(suf, t.model()) == Ok::<(ValModel, int), ErrModel>(
                                (rv.model(), (j - i) as int),
                            ));
                        }
                        Ok((rv, j))
                    },
                }
            } else {
                proof {
                    if suf.len() > 0 {
                        assert(suf[0] == s@[i as int]);
                    }
                    assert(sp_value(suf, t.model()) == Err::<(ValModel, int), ErrModel>(
                        ErrModel::TypeMismatch,
                    ));
                }
                Err(CallError::TypeMismatch)
            }
        },
        _ => {
            proof {
                assert(false);
            }
            Err(CallError::TypeMismatch)
        },
    }
}

/// Parse a numeric literal of any declared width.
#[verifier::rlimit(100)]
#[verifier::spinoff_prover]
fn parse_numeric(s: &[char], i: usize, t: &ValueType) -> (r: Result<(Value, usize), CallError>)
    requires
        i <= s@.len(),
        t is S8 || t is S16 || t is S32 || t is S64 || t is U8 || t is U16 || t is U32 || t
            is U64,
    ensures
        ({
            match (r, sp_value(s@.skip(i as int), t.model())) {
                (Ok((v, j)), Ok((vm, k))) => i <= j <= s@.len() && j == i + k && v.model() == vm,
                (Err(e), Err(em)) => e.model() == em,
                _ => false,
            }
        }),
    decreases s@.len() - i, *t, 8int,
{
    let ghost suf = s@.skip(i as int);
    match t {
        ValueType::S8 => match crate::codec::parse_number(s, i, 128, 127) {
            Ok((neg, m, j)) => {
                let val = if neg { (-(m as i64)) as i8 } else { m as i8 };
                proof {
                    let (v, k) = sp_sint(suf, -(128 as int), 127 as int)->Ok_0;
                    assert(val as int == v);
                    assert(val == v as i8);
                    assert(sp_value(suf, t.model()) == Ok::<(ValModel, int), ErrModel>(
                        (ValModel::S8(v as i8), k),
                    ));
                }
                Ok((Value::S8(val), j))
            },
            Err(e) => {
                proof {
                    assert(sp_value(suf, t.model()) == Err::<(ValModel, int), ErrModel>(
                        sp_sint(suf, -(128 as int), 127 as int)->Err_0,
                    ));
                }
                Err(e)
            },
        },
        ValueType::S16 => match crate::codec::parse_number(s, i, 32768, 32767) {
            Ok((neg, m, j)) => {
                let val = if neg { (-(m as i64)) as i16 } else { m as i16 };
                proof {
                    let (v, k) = sp_sint(suf, -(32768 as int), 32767 as int)->Ok_0;
                    assert(val as int == v);
                    assert(val == v as i16);
                    assert(sp_value(suf, t.model()) == Ok::<(ValModel, int), ErrModel>(
                        (ValModel::S16(v as i16), k),
                    ));
                }
                Ok((Value::S16(val), j))
            },
            Err(e) => Err(e),
        },
        ValueType::S32 => match crate::codec::parse_number(s, i, 2147483648, 2147483647) {
            Ok((neg, m, j)) => {
                let val = if neg { (-(m as i64)) as i32 } else { m as i32 };
                proof {
                    let (v, k) = sp_sint(suf, -(2147483648 as int), 2147483647 as int)->Ok_0;
                    assert(val as int == v);
                    assert(val == v as i32);
                    assert(sp_value(suf, t.model()) == Ok::<(ValModel, int), ErrModel>(
                        (ValModel::S32(v as i32), k),
                    ));
                }
                Ok((Value::S32(val), j))
            },
            Err(e) => Err(e),
        },
        ValueType::S64 => match crate::codec::parse_number(s, i, 9223372036854775808u64, 9223372036854775807u64) {
            Ok((neg, m, j)) => {
                let val = if neg { if m == 9223372036854775808u64 { i64::MIN } else { -(m as i64) } } else { m as i64 };
                proof {
                    let (v, k) = sp_sint(suf, -(9223372036854775808u64 as int), 9223372036854775807u64 as int)->Ok_0;
                    assert(val as int == v);
                    assert(val == v as i64);
                    assert(sp_value(suf, t.model()) == Ok::<(ValModel, int), ErrModel>(
                        (ValModel::S64(v as i64), k),
                    ));
                }
                Ok((Value::S64(val), j))
            },
            Err(e) => Err(e),
        },
        ValueType::U8 => match crate::codec::parse_number(s, i, 0, 255) {
            Ok((neg, m, j)) => {
                let val = m as u8;
                proof {
                    let (v, k) = sp_sint(suf, -(0 as int), 255 as int)->Ok_0;
                    assert(val as int == v);
                    assert(val == v as u8);
                    assert(sp_value(suf, t.model()) == Ok::<(ValModel, int), ErrModel>(
                        (ValModel::U8(v as u8), k),
                    ));
                }
                Ok((Value::U8(val), j))
            },
            Err(e) => Err(e),
        },
        ValueType::U16 => match crate::codec::parse_number(s, i, 0, 65535) {
            Ok((neg, m, j)) => {
                let val = m as u16;
                proof {
                    let (v, k) = sp_sint(suf, -(0 as int), 65535 as int)->Ok_0;
                    assert(val as int == v);
                    assert(val == v as u16);
                    assert(sp_value(suf, t.model()) == Ok::<(ValModel, int), ErrModel>(
                        (ValModel::U16(v as u16), k),
                    ));
                }
                Ok((Value::U16(val), j))
            },
            Err(e) => Err(e),
        },
        ValueType::U32 => match crate::codec::parse_number(s, i, 0, 4294967295) {
            Ok((neg, m, j)) => {
                let val = m as u32;
                proof {
                    let (v, k) = sp_sint(suf, -(0 as int), 4294967295 as int)->Ok_0;
                    assert(val as int == v);
                    assert(val == v as u32);
                    assert(sp_value(suf, t.model()) == Ok::<(ValModel, int), ErrModel>(
                        (ValModel::U32(v as u32), k),
                    ));
                }
                Ok((Value::U32(val), j))
            },
            Err(e) => Err(e),
        },
        ValueType::U64 => match crate::codec::parse_number(s, i, 0, 18446744073709551615u64) {
            Ok((neg, m, j)) => {
                let val = m;
                proof {
                    let (v, k) = sp_sint(suf, -(0 as int), 18446744073709551615u64 as int)->Ok_0;
                    assert(val as int == v);
                    assert(val == v as u64);
                    assert(sp_value(suf, t.model()) == Ok::<(ValModel, int), ErrModel>(
                        (ValModel::U64(v as u64), k),
                    ));
                }
                Ok((Value::U64(val), j))
            },
            Err(e) => Err(e),
        },
        _ => {
            proof {
                assert(false);
            }
            Err(CallError::TypeMismatch)
        },
    }
}

/// Parse the forms that begin with a name: variants, enumerations,
/// options, results, and the brace forms records and flags.
#[verifier::rlimit(100)]
#[verifier::spinoff_prover]
#[verifier::loop_isolation(false)]
fn parse_named(s: &[char], i: usize, t: &ValueType) -> (r: Result<(Value, usize), CallError>)
    requires
        i <= s@.len(),
        t is Variant || t is Enum || t is Optional || t is Expected || t is Record || t is Flags,
    ensures
        ({
            match (r, sp_value(s@.skip(i as int), t.model())) {
                (Ok((v, j)), Ok((vm, k))) => i <= j <= s@.len() && j == i + k && v.model() == vm,
                (Err(e), Err(em)) => e.model() == em,
                _ => false,
            }
        }),
    decreases s@.len() - i, *t, 8int,
{
    let ghost suf = s@.skip(i as int);
    match t {
        ValueType::Record(tfs) => {
            if i < s.len() && s[i] == '{' {
                proof {
                    assert(suf[0] == s@[i as int]);
                    assert(suf.skip(1) =~= s@.skip(i + 1));
                }
                let mut slots: Vec<Option<Value>> = Vec::new();
                let mut q: usize = 0;
                while q < tfs.len()
                    invariant
                        q <= tfs@.len(),
                        slots@.len() == q,
                        forall|m: int| 0 <= m < q ==> (#[trigger] slots@[m]) is None,
                    decreases tfs@.len() - q,
                {
                    slots.push(None);
                    q = q + 1;
                }
                proof {
                    assert(slot_models(slots@) =~= Seq::new(
                        t.model()->Record_0.len(),
                        |m: int| None::<ValModel>,
                    ));
                }
                proof {
                    assert(Seq::new(tfs@.len(), |q: int| (tfs@[q].0@, tfs@[q].1.model())) =~= t.model()->Record_0);
                }
                match parse_fields(s, i + 1, tfs, &mut slots) {
                    Err(e) => Err(e),
                    Ok(j) => {
                        let ghost spslots = slot_models(slots@);
                        let mut fields: Vec<(Vec<char>, Value)> = Vec::new();
                        let mut q: usize = 0;
                        while q < tfs.len()
                            invariant
                                q <= tfs@.len(),
                                slots@.len() == tfs@.len() - q,
                                spslots.len() == tfs@.len(),
                                forall|m: int|
                                    0 <= m < slots@.len() ==> slot_models(slots@)[m] == spslots[m
                                        + q],
                                forall|m: int| 0 <= m < q ==> (#[trigger] spslots[m]) is Some,
                                fields@.len() == q,
                                forall|m: int|
                                    0 <= m < q ==> (#[trigger] fields@[m].0@) == tfs@[m].0@
                                        && fields@[m].1.model() == slot_val(spslots[m]),
                            decreases tfs@.len() - q,
                        {
                            let ghost prev = slots@;
                            let slot = slots.remove(0);
                            proof {
                                assert(slot == prev[0]);
                                assert(slots@ =~= prev.drop_first());
                                assert(prev.len() == tfs@.len() - q);
                                assert(slot_models(prev)[0] == spslots[0 + q]);
                                assert(slot_models(prev)[0] == spslots[q as int]);
                            }
                            match slot {
                                None => {
                                    proof {
                                        assert(spslots[q as int] is None);
                                        crate::codec::lemma_first_unfilled_at(
                                            spslots,
                                            0,
                                            q as int,
                                        );
                                        assert(Seq::new(
                                            tfs@.len(),
                                            |m: int| (tfs@[m].0@, tfs@[m].1.model()),
                                        ) =~= t.model()->Record_0);
                                        assert(t.model()->Record_0[q as int].0 == tfs@[q as int].0@);
                                    }
                                    return Err(CallError::MissingField(copy_chars(&tfs[q].0)));
                                },
                                Some(v) => {
                                    proof {
                                        assert(spslots[q as int] == Some(v.model()));
                                        assert forall|m: int|
                                            0 <= m < slots@.len() implies slot_models(slots@)[m]
                                            == spslots[m + q + 1] by {
                                            assert(slots@[m] == prev[m + 1]);
                                            assert(slot_models(prev)[m + 1] == spslots[m + 1 + q]);
                                        }
                                    }
                                    fields.push((copy_chars(&tfs[q].0), v));
                                },
                            }
                                                        q = q + 1;
                        }
                        proof {
                            crate::codec::lemma_none_unfilled(spslots, 0);
                        }
                        let r = Value::Record(fields);
                        proof {
                            let ghost tms = t.model()->Record_0;
                            assert(r.model()->Record_0.len() == tms.len());
                            assert forall|m: int|
                                0 <= m < tms.len() implies r.model()->Record_0[m] == (
                            tms[m].0,
                            slot_val(spslots[m]),
                            ) by {
                                assert(fields@[m].0@ == tfs@[m].0@);
                                assert(fields@[m].1.model() == slot_val(spslots[m]));
                                assert(tms[m].0 == tfs@[m].0@);
                            }
                            assert(r.model()->Record_0 =~= Seq::new(
                                tms.len(),
                                |m: int| (tms[m].0, slot_val(spslots[m])),
                            ));
                        }
                        Ok((r, j))
                    },
                }
            } else {
                proof {
                    if suf.len() > 0 {
                        assert(suf[0] == s@[i as int]);
                    }
                    assert(sp_value(suf, t.model()) == Err::<(ValModel, int), ErrModel>(
                        ErrModel::TypeMismatch,
                    ));
                }
                Err(CallError::TypeMismatch)
            }
        },
        ValueType::Flags(ns) => {
            if i < s.len() && s[i] == '{' {
                proof {
                    assert(suf[0] == s@[i as int]);
                    assert(suf.skip(1) =~= s@.skip(i + 1));
                    assert(name_views(ns@) =~= t.model()->Flags_0);
                    assert(ixs_of(Seq::<usize>::empty()) =~= Seq::<int>::empty());
                }
                let mut seen: Vec<usize> = Vec::new();
                match parse_flags(s, i + 1, ns, &mut seen) {
                    Err(e) => Err(e),
                    Ok(j) => {
                        let picked = select_names_x(ns, &seen, 0);
                        let r = Value::Flags(picked);
                        proof {
                            assert(r.model()->Flags_0 =~= name_views(r->Flags_0@));
                        }
                        Ok((r, j))
                    },
                }
            } else {
                proof {
                    if suf.len() > 0 {
                        assert(suf[0] == s@[i as int]);
                    }
                    assert(sp_value(suf, t.model()) == Err::<(ValModel, int), ErrModel>(
                        ErrModel::TypeMismatch,
                    ));
                }
                Err(CallError::TypeMismatch)
            }
        },
        ValueType::Optional(..) => parse_option_form(s, i, t),
        _ => {
            parse_name_form(s, i, t)
        },
    }
}

/// Parse an option literal: `none`, `some(v)`, or a bare literal of the
/// payload type, interpreted as present.
#[verifier::rlimit(100)]
#[verifier::spinoff_prover]
fn parse_option_form(s: &[char], i: usize, t: &ValueType) -> (r: Result<(Value, usize), CallError>)
    requires
        i <= s@.len(),
        t is Optional,
    ensures
        ({
            match (r, sp_value(s@.skip(i as int), t.model())) {
                (Ok((v, j)), Ok((vm, k))) => i <= j <= s@.len() && j == i + k && v.model() == vm,
                (Err(e), Err(em)) => e.model() == em,
                _ => false,
            }
        }),
    decreases s@.len() - i, *t, 7int,
{
    let ghost suf = s@.skip(i as int);
    match t {
        ValueType::Optional(et) => {
            proof {
                assert(t.model()->Optional_0[0] == (**et).model());
            }
            let j = scan_name(s, i);
            let ghost n = name_count(suf);
            proof {
                assert(j - i == n);
                assert(suf.take(n) =~= s@.subrange(i as int, j as int));
            }
            if j - i == 4 && s[i] == 'n' && s[i + 1] == 'o' && s[i + 2] == 'n' && s[i + 3] == 'e' {
                proof {
                    assert(suf.take(4) =~= kw_none());
                }
                Ok((Value::Optional(None), j))
            } else if j - i == 4 && s[i] == 's' && s[i + 1] == 'o' && s[i + 2] == 'm' && s[i + 3]
                == 'e' {
                proof {
                    assert(suf.take(4) =~= kw_some());
                    assert(suf.take(4) != kw_none()) by {
                        assert(suf.take(4)[0] == 's');
                        assert(kw_none()[0] == 'n');
                    }
                    assert(suf.skip(4) =~= s@.skip(i + 4));
                }
                match parse_payload(s, i + 4, et) {
                    Err(e) => Err(e),
                    Ok((pv, j2)) => {
                        let rv = Value::Optional(Some(Box::new(pv)));
                        proof {
                            assert(rv.model()->Optional_0 =~= seq![pv.model()]);
                        }
                        Ok((rv, j2))
                    },
                }
            } else {
                proof {
                    if n == 4 {
                        lemma_name_not_kw(suf, n, kw_none(), s@, i as int, j as int);
                        lemma_name_not_kw(suf, n, kw_some(), s@, i as int, j as int);
                    }
                    assert(suf =~= s@.skip(i as int));
                }
                match parse_value(s, i, et) {
                    Err(e) => Err(e),
                    Ok((pv, j2)) => {
                        let rv = Value::Optional(Some(Box::new(pv)));
                        proof {
                            assert(rv.model()->Optional_0 =~= seq![pv.model()]);
                        }
                        Ok((rv, j2))
                    },
                }
            }
        },
        _ => {
            proof {
                assert(false);
            }
            Err(CallError::TypeMismatch)
        },
    }
}

/// Parse the purely name-led forms: variants, enumerations and results.
#[verifier::rlimit(100)]
#[verifier::spinoff_prover]
fn parse_name_form(s: &[char], i: usize, t: &ValueType) -> (r: Result<(Value, usize), CallError>)
    requires
        i <= s@.len(),
        t is Variant || t is Enum || t is Expected,
    ensures
        ({
            match (r, sp_value(s@.skip(i as int), t.model())) {
                (Ok((v, j)), Ok((vm, k))) => i <= j <= s@.len() && j == i + k && v.model() == vm,
                (Err(e), Err(em)) => e.model() == em,
                _ => false,
            }
        }),
    decreases s@.len() - i, *t, 7int,
{
    let ghost suf = s@.skip(i as int);
    let j = scan_name(s, i);
    let ghost n = name_count(suf);
    proof {
        assert(j - i == n);
        assert(suf.take(n) =~= s@.subrange(i as int, j as int));
    }
    if j == i {
        return Err(CallError::TypeMismatch);
    }
    match t {
        ValueType::Variant(cs) => {
            let mut names: Vec<Vec<char>> = Vec::new();
            let mut q: usize = 0;
            while q < cs.len()
                invariant
                    q <= cs@.len(),
                    names@.len() == q,
                    forall|m: int| 0 <= m < q ==> (#[trigger] names@[m]@) == cs@[m].0@,
                decreases cs@.len() - q,
            {
                names.push(copy_chars(&cs[q].0));
                q = q + 1;
            }
            proof {
                assert(name_views(names@) =~= case_names(t.model()->Variant_0));
            }
            match crate::codec::find_name_x(&names, s, i, j) {
                None => Err(CallError::TypeMismatch),
                Some(cj) => {
                    match &cs[cj].1 {
                        Some(pt) => {
                            proof {
                                assert(t.model()->Variant_0[cj as int].1 =~= seq![pt.model()]);
                                assert(suf.skip(n) =~= s@.skip(j as int));
                            }
                            match parse_payload(s, j, pt) {
                                Err(e) => Err(e),
                                Ok((pv, j2)) => {
                                    let r = Value::Variant(
                                        crate::codec::copy_range(s, i, j),
                                        Some(Box::new(pv)),
                                    );
                                    proof {
                                        assert(r.model()->Variant_1 =~= seq![pv.model()]);
                                    }
                                    Ok((r, j2))
                                },
                            }
                        },
                        None => {
                            proof {
                                assert(t.model()->Variant_0[cj as int].1 =~= Seq::<
                                    TypeModel,
                                >::empty());
                            }
                            if j < s.len() && s[j] == '(' {
                                proof {
                                    assert(suf[n] == s@[j as int]);
                                }
                                Err(CallError::TypeMismatch)
                            } else {
                                proof {
                                    if n < suf.len() {
                                        assert(suf[n] == s@[j as int]);
                                    }
                                }
                                Ok((Value::Variant(crate::codec::copy_range(s, i, j), None), j))
                            }
                        },
                    }
                },
            }
        },
        ValueType::Enum(ns) => {
            proof {
                assert(name_views(ns@) =~= t.model()->Enum_0);
            }
            match crate::codec::find_name_x(ns, s, i, j) {
                None => Err(CallError::TypeMismatch),
                Some(_) => Ok((Value::Enum(crate::codec::copy_range(s, i, j)), j)),
            }
        },
        _ => {
            parse_expected(s, i, j, t)
        },
    }
}

/// A scanned name that differs character-wise from a keyword is not that
/// keyword.
proof fn lemma_name_not_kw(suf: Seq<char>, n: int, kw: Seq<char>, s: Seq<char>, i: int, j: int)
    requires
        0 <= i <= j <= s.len(),
        suf == s.skip(i),
        n == j - i,
        n <= suf.len(),
        !(n == kw.len() && (forall|m: int| 0 <= m < n ==> s[i + m] == kw[m])),
    ensures
        suf.take(n) != kw,
{
    if suf.take(n) == kw {
        assert(n == kw.len());
        assert forall|m: int| 0 <= m < n implies s[i + m] == kw[m] by {
            assert(suf.take(n)[m] == suf[m]);
            assert(suf[m] == s[i + m]);
        }
    }
}

/// Parse the result form `ok`/`err` with its payload as declared.
#[verifier::rlimit(100)]
#[verifier::spinoff_prover]
fn parse_expected(s: &[char], i: usize, j: usize, t: &ValueType) -> (r: Result<
    (Value, usize),
    CallError,
>)
    requires
        i <= j <= s@.len(),
        t is Expected,
        j - i == name_count(s@.skip(i as int)),
        j > i,
    ensures
        ({
            match (r, sp_value(s@.skip(i as int), t.model())) {
                (Ok((v, j2)), Ok((vm, k))) => i <= j2 <= s@.len() && j2 == i + k && v.model()
                    == vm,
                (Err(e), Err(em)) => e.model() == em,
                _ => false,
            }
        }),
    decreases s@.len() - i, *t, 6int,
{
    let ghost suf = s@.skip(i as int);
    let ghost n = (j - i) as int;
    match t {
        ValueType::Expected(ot, et) => {
            if j - i == 2 && s[i] == 'o' && s[i + 1] == 'k' {
                proof {
                    assert(suf.take(2) =~= kw_ok());
                }
                match ot {
                    Some(pt) => {
                        proof {
                            assert(t.model()->Expected_0[0] == (**pt).model());
                            assert(suf.skip(2) =~= s@.skip(i + 2));
                        }
                        match parse_payload(s, i + 2, pt) {
                            Err(e) => Err(e),
                            Ok((pv, j2)) => {
                                let r = Value::Expected(true, Some(Box::new(pv)));
                                proof {
                                    assert(r.model()->Expected_1 =~= seq![pv.model()]);
                                }
                                Ok((r, j2))
                            },
                        }
                    },
                    None => {
                        proof {
                            assert(t.model()->Expected_0 =~= Seq::<TypeModel>::empty());
                        }
                        if j < s.len() && s[j] == '(' {
                            proof {
                                assert(suf[n] == s@[j as int]);
                            }
                            Err(CallError::TypeMismatch)
                        } else {
                            proof {
                                if n < suf.len() {
                                    assert(suf[n] == s@[j as int]);
                                }
                            }
                            Ok((Value::Expected(true, None), j))
                        }
                    },
                }
            } else if j - i == 3 && s[i] == 'e' && s[i + 1] == 'r' && s[i + 2] == 'r' {
                proof {
                    assert(suf.take(3) =~= kw_err());
                    lemma_name_not_kw(suf, n, kw_ok(), s@, i as int, j as int);
                }
                match et {
                    Some(pt) => {
                        proof {
                            assert(t.model()->Expected_1[0] == (**pt).model());
                            assert(suf.skip(3) =~= s@.skip(i + 3));
                        }
                        match parse_payload(s, i + 3, pt) {
                            Err(e) => Err(e),
                            Ok((pv, j2)) => {
                                let r = Value::Expected(false, Some(Box::new(pv)));
                                proof {
                                    assert(r.model()->Expected_1 =~= seq![pv.model()]);
                                }
                                Ok((r, j2))
                            },
                        }
                    },
                    None => {
                        proof {
                            assert(t.model()->Expected_1 =~= Seq::<TypeModel>::empty());
                        }
                        if j < s.len() && s[j] == '(' {
                            proof {
                                assert(suf[n] == s@[j as int]);
                            }
                            Err(CallError::TypeMismatch)
                        } else {
                            proof {
                                if n < suf.len() {
                                    assert(suf[n] == s@[j as int]);
                                }
                            }
                            Ok((Value::Expected(false, None), j))
                        }
                    },
                }
            } else {
                proof {
                    lemma_name_not_kw(suf, n, kw_ok(), s@, i as int, j as int);
                    lemma_name_not_kw(suf, n, kw_err(), s@, i as int, j as int);
                }
                Err(CallError::TypeMismatch)
            }
        },
        _ => {
            proof {
                assert(false);
            }
            Err(CallError::TypeMismatch)
        },
    }
}

/// Parse a parenthesized payload of type `t` at position `i`.
#[verifier::rlimit(100)]
#[verifier::spinoff_prover]
fn parse_payload(s: &[char], i: usize, t: &ValueType) -> (r: Result<(Value, usize), CallError>)
    requires
        i <= s@.len(),
    ensures
        ({
            match (r, sp_payload(s@.skip(i as int), t.model())) {
                (Ok((v, j)), Ok((vm, k))) => i <= j <= s@.len() && j == i + k && v.model() == vm,
                (Err(e), Err(em)) => e.model() == em,
                _ => false,
            }
        }),
    decreases s@.len() - i, *t, 10int,
{
    let ghost suf = s@.skip(i as int);
    let w0 = scan_ws(s, i);
    if !(w0 < s.len() && s[w0] == '(') {
        proof {
            if (w0 - i) < suf.len() {
                assert(suf[w0 - i] == s@[w0 as int]);
            }
        }
        return Err(CallError::TypeMismatch);
    }
    proof {
        assert(suf[w0 - i] == s@[w0 as int]);
        assert(suf.skip(w0 - i + 1) =~= s@.skip(w0 + 1));
    }
    let a = scan_ws(s, w0 + 1);
    proof {
        assert(s@.skip(w0 + 1).skip(a - w0 - 1) =~= s@.skip(a as int));
        assert(suf.skip((w0 - i) + 1 + ws_count(suf.skip(w0 - i + 1))) =~= s@.skip(a as int));
    }
    match parse_value(s, a, t) {
        Err(e) => Err(e),
        Ok((v, j)) => {
            let b = scan_ws(s, j);
            proof {
                assert(s@.skip(j as int) =~= suf.skip(j - i));
            }
            if b < s.len() && s[b] == ')' {
                proof {
                    assert(suf[b - i] == s@[b as int]);
                }
                Ok((v, b + 1))
            } else {
                proof {
                    if (b - i) < suf.len() {
                        assert(suf[b - i] == s@[b as int]);
                    }
                }
                Err(CallError::Syntax)
            }
        },
    }
}

/// Parse comma-separated list elements up to the closing bracket.
#[verifier::rlimit(100)]
#[verifier::spinoff_prover]
fn parse_elems(s: &[char], i: usize, te: &ValueType) -> (r: Result<(Vec<Value>, usize), CallError>)
    requires
        i <= s@.len(),
    ensures
        ({
            match (r, sp_elems(s@.skip(i as int), te.model(), ']')) {
                (Ok((vs, j)), Ok((vms, k))) => i <= j <= s@.len() && j == i + k && models_of(vs@)
                    == vms,
                (Err(e), Err(em)) => e.model() == em,
                _ => false,
            }
        }),
    decreases s@.len() - i, *te, 10int,
{
    let ghost suf = s@.skip(i as int);
    let w = scan_ws(s, i);
    proof {
        assert(s@.skip(w as int) =~= suf.skip(w - i));
    }
    if w < s.len() && s[w] == ']' {
        proof {
            assert(suf[w - i] == s@[w as int]);
            assert(models_of(Seq::<Value>::empty()) =~= Seq::<ValModel>::empty());
        }
        return Ok((Vec::new(), w + 1));
    }
    proof {
        if (w - i) < suf.len() {
            assert(suf[w - i] == s@[w as int]);
        }
    }
    match parse_value(s, w, te) {
        Err(e) => Err(e),
        Ok((v, j)) => {
            let b = scan_ws(s, j);
            proof {
                assert(s@.skip(j as int) =~= suf.skip(j - i));
            }
            if b < s.len() && s[b] == ']' {
                proof {
                    assert(suf[b - i] == s@[b as int]);
                }
                let mut vs: Vec<Value> = Vec::new();
                vs.push(v);
                proof {
                    assert(models_of(vs@) =~= seq![vs@[0].model()]);
                }
                Ok((vs, b + 1))
            } else if b < s.len() && s[b] == ',' {
                proof {
                    assert(suf[b - i] == s@[b as int]);
                    assert(s@.skip(b + 1) =~= suf.skip(b + 1 - i));
                }
                match parse_elems(s, b + 1, te) {
                    Err(e) => Err(e),
                    Ok((mut vs2, j2)) => {
                        let ghost old_vs2 = vs2@;
                        vs2.insert(0, v);
                        proof {
                            assert(models_of(vs2@) =~= seq![v.model()] + models_of(old_vs2));
                        }
                        Ok((vs2, j2))
                    },
                }
            } else {
                proof {
                    if (b - i) < suf.len() {
                        assert(suf[b - i] == s@[b as int]);
                    }
                }
                Err(CallError::Syntax)
            }
        },
    }
}

/// Parse tuple components against `ts` from position `idx` up to the
/// closing parenthesis.
#[verifier::rlimit(100)]
#[verifier::spinoff_prover]
fn parse_tuple(s: &[char], i: usize, ts: &Vec<ValueType>, idx: usize) -> (r: Result<
    (Vec<Value>, usize),
    CallError,
>)
    requires
        i <= s@.len(),
        idx <= ts@.len(),
    ensures
        ({
            let tms = Seq::new(ts@.len(), |q: int| ts@[q].model());
            match (r, sp_tuple(s@.skip(i as int), tms, idx as int)) {
                (Ok((vs, j)), Ok((vms, k))) => i <= j <= s@.len() && j == i + k && models_of(vs@)
                    == vms,
                (Err(e), Err(em)) => e.model() == em,
                _ => false,
            }
        }),
    decreases s@.len() - i, *ts, 10int,
{
    let ghost suf = s@.skip(i as int);
    let ghost tms = Seq::new(ts@.len(), |q: int| ts@[q].model());
    let w = scan_ws(s, i);
    proof {
        assert(s@.skip(w as int) =~= suf.skip(w - i));
    }
    if idx == ts.len() {
        if w < s.len() && s[w] == ')' {
            proof {
                assert(suf[w - i] == s@[w as int]);
                assert(models_of(Seq::<Value>::empty()) =~= Seq::<ValModel>::empty());
            }
            Ok((Vec::new(), w + 1))
        } else if w >= s.len() {
            Err(CallError::Syntax)
        } else {
            proof {
                assert(suf[w - i] == s@[w as int]);
            }
            Err(CallError::TypeMismatch)
        }
    } else {
        match parse_value(s, w, &ts[idx]) {
            Err(e) => Err(e),
            Ok((v, j)) => {
                let b = scan_ws(s, j);
                proof {
                    assert(s@.skip(j as int) =~= suf.skip(j - i));
                }
                if b < s.len() && s[b] == ')' {
                    proof {
                        assert(suf[b - i] == s@[b as int]);
                    }
                    if idx + 1 == ts.len() {
                        let mut vs: Vec<Value> = Vec::new();
                        vs.push(v);
                        proof {
                            assert(models_of(vs@) =~= seq![vs@[0].model()]);
                        }
                        Ok((vs, b + 1))
                    } else {
                        Err(CallError::TypeMismatch)
                    }
                } else if b < s.len() && s[b] == ',' && idx + 1 < ts.len() {
                    proof {
                        assert(suf[b - i] == s@[b as int]);
                        assert(s@.skip(b + 1) =~= suf.skip(b + 1 - i));
                    }
                    match parse_tuple(s, b + 1, ts, idx + 1) {
                        Err(e) => Err(e),
                        Ok((mut vs2, j2)) => {
                            let ghost old_vs2 = vs2@;
                            vs2.insert(0, v);
                            proof {
                                assert(models_of(vs2@) =~= seq![v.model()] + models_of(old_vs2));
                            }
                            Ok((vs2, j2))
                        },
                    }
                } else if b < s.len() && s[b] == ',' {
                    proof {
                        assert(suf[b - i] == s@[b as int]);
                    }
                    Err(CallError::TypeMismatch)
                } else {
                    proof {
                        if (b - i) < suf.len() {
                            assert(suf[b - i] == s@[b as int]);
                        }
                    }
                    Err(CallError::Syntax)
                }
            },
        }
    }
}

/// Parse `name: value` record fields into `slots` up to the closing brace.
#[verifier::rlimit(100)]
#[verifier::spinoff_prover]
fn parse_fields(
    s: &[char],
    i: usize,
    tfs: &Vec<(Vec<char>, ValueType)>,
    slots: &mut Vec<Option<Value>>,
) -> (r: Result<usize, CallError>)
    requires
        i <= s@.len(),
        old(slots)@.len() == tfs@.len(),
    ensures
        ({
            let tms = Seq::new(tfs@.len(), |q: int| (tfs@[q].0@, tfs@[q].1.model()));
            match (r, sp_fields(s@.skip(i as int), tms, slot_models(old(slots)@))) {
                (Ok(j), Ok((slots2, k))) => i <= j <= s@.len() && j == i + k && slot_models(
                    final(slots)@,
                ) == slots2 && final(slots)@.len() == tfs@.len(),
                (Err(e), Err(em)) => e.model() == em,
                _ => false,
            }
        }),
    decreases s@.len() - i, *tfs, 10int,
{
    let ghost suf = s@.skip(i as int);
    let ghost tms = Seq::new(tfs@.len(), |q: int| (tfs@[q].0@, tfs@[q].1.model()));
    let w = scan_ws(s, i);
    proof {
        assert(s@.skip(w as int) =~= suf.skip(w - i));
    }
    if w < s.len() && s[w] == '}' {
        proof {
            assert(suf[w - i] == s@[w as int]);
        }
        return Ok(w + 1);
    }
    proof {
        if (w - i) < suf.len() {
            assert(suf[w - i] == s@[w as int]);
        }
    }
    let j = scan_name(s, w);
    proof {
        assert(name_count(suf.skip(w - i)) == j - w);
        assert(suf.skip(w - i).take(j - w) =~= s@.subrange(w as int, j as int));
    }
    if j == w {
        return Err(CallError::Syntax);
    }
    let mut names: Vec<Vec<char>> = Vec::new();
    let mut q: usize = 0;
    while q < tfs.len()
        invariant
            q <= tfs@.len(),
            names@.len() == q,
            forall|m: int| 0 <= m < q ==> (#[trigger] names@[m]@) == tfs@[m].0@,
        decreases tfs@.len() - q,
    {
        names.push(copy_chars(&tfs[q].0));
        q = q + 1;
    }
    proof {
        assert(name_views(names@) =~= field_names(tms));
    }
    match crate::codec::find_name_x(&names, s, w, j) {
        None => Err(CallError::UnknownField(crate::codec::copy_range(s, w, j))),
        Some(fj) => {
            if matches!(&slots[fj], Some(_)) {
                proof {
                    assert(slot_models(slots@)[fj as int] is Some);
                }
                return Err(CallError::DuplicateField(crate::codec::copy_range(s, w, j)));
            }
            proof {
                assert(slot_models(slots@)[fj as int] is None);
            }
            let c = scan_ws(s, j);
            proof {
                assert(s@.skip(j as int) =~= suf.skip(j - i));
            }
            if !(c < s.len() && s[c] == ':') {
                proof {
                    if (c - i) < suf.len() {
                        assert(suf[c - i] == s@[c as int]);
                    }
                }
                return Err(CallError::Syntax);
            }
            proof {
                assert(suf[c - i] == s@[c as int]);
            }
            let d = scan_ws(s, c + 1);
            proof {
                assert(s@.skip(c + 1) =~= suf.skip(c + 1 - i));
                assert(s@.skip(d as int) =~= suf.skip(d - i));
            }
            match parse_value(s, d, &tfs[fj].1) {
                Err(e) => Err(e),
                Ok((v, j2)) => {
                    let b = scan_ws(s, j2);
                    proof {
                        assert(s@.skip(j2 as int) =~= suf.skip(j2 - i));
                    }
                    slots[fj] = Some(v);
                    proof {
                        assert(slot_models(slots@) =~= slot_models(old(slots)@).update(
                            fj as int,
                            Some(v.model()),
                        ));
                    }
                    if b < s.len() && s[b] == '}' {
                        proof {
                            assert(suf[b - i] == s@[b as int]);
                        }
                        Ok(b + 1)
                    } else if b < s.len() && s[b] == ',' {
                        proof {
                            assert(suf[b - i] == s@[b as int]);
                            assert(s@.skip(b + 1) =~= suf.skip(b + 1 - i));
                        }
                        parse_fields(s, b + 1, tfs, slots)
                    } else {
                        proof {
                            if (b - i) < suf.len() {
                                assert(suf[b - i] == s@[b as int]);
                            }
                        }
                        Err(CallError::Syntax)
                    }
                },
            }
        },
    }
}

/// Parse flag names into `seen` up to the closing brace.
#[verifier::rlimit(100)]
#[verifier::spinoff_prover]
fn parse_flags(s: &[char], i: usize, ns: &Vec<Vec<char>>, seen: &mut Vec<usize>) -> (r: Result<
    usize,
    CallError,
>)
    requires
        i <= s@.len(),
    ensures
        ({
            match (r, sp_flags(s@.skip(i as int), name_views(ns@), ixs_of(old(seen)@))) {
                (Ok(j), Ok((ixs, k))) => i <= j <= s@.len() && j == i + k && ixs_of(final(seen)@)
                    == ixs,
                (Err(e), Err(em)) => e.model() == em,
                _ => false,
            }
        }),
    decreases s@.len() - i, *ns, 10int,
{
    let ghost suf = s@.skip(i as int);
    let w = scan_ws(s, i);
    proof {
        assert(s@.skip(w as int) =~= suf.skip(w - i));
    }
    if w < s.len() && s[w] == '}' {
        proof {
            assert(suf[w - i] == s@[w as int]);
        }
        return Ok(w + 1);
    }
    proof {
        if (w - i) < suf.len() {
            assert(suf[w - i] == s@[w as int]);
        }
    }
    let j = scan_name(s, w);
    proof {
        assert(name_count(suf.skip(w - i)) == j - w);
        assert(suf.skip(w - i).take(j - w) =~= s@.subrange(w as int, j as int));
    }
    if j == w {
        return Err(CallError::Syntax);
    }
    match crate::codec::find_name_x(ns, s, w, j) {
        None => Err(CallError::UnknownField(crate::codec::copy_range(s, w, j))),
        Some(fj) => {
            if !crate::codec::contains_ix(seen, fj) {
                seen.push(fj);
                proof {
                    assert(ixs_of(seen@) =~= ixs_of(old(seen)@).push(fj as int));
                }
            }
            let b = scan_ws(s, j);
            proof {
                assert(s@.skip(j as int) =~= suf.skip(j - i));
            }
            if b < s.len() && s[b] == '}' {
                proof {
                    assert(suf[b - i] == s@[b as int]);
                }
                Ok(b + 1)
            } else if b < s.len() && s[b] == ',' {
                proof {
                    assert(suf[b - i] == s@[b as int]);
                    assert(s@.skip(b + 1) =~= suf.skip(b + 1 - i));
                }
                parse_flags(s, b + 1, ns, seen)
            } else {
                proof {
                    if (b - i) < suf.len() {
                        assert(suf[b - i] == s@[b as int]);
                    }
                }
                Err(CallError::Syntax)
            }
        },
    }
}

/// Parse a complete literal of type `t`: the whole of `s`, with optional
/// surrounding whitespace.
pub fn parse_value_text(s: &[char], t: &ValueType) -> (r: Result<Value, CallError>)
    ensures
        ({
            match (r, sp_complete(s@, t.model())) {
                (Ok(v), Ok(vm)) => v.model() == vm,
                (Err(e), Err(em)) => e.model() == em,
                _ => false,
            }
        }),
{
    let w = scan_ws(s, 0);
    proof {
        assert(s@.skip(0) =~= s@);
        assert(s@.skip(w as int) =~= s@.skip(0 + ws_count(s@)));
    }
    match parse_value(s, w, t) {
        Err(e) => Err(e),
        Ok((v, j)) => {
            let b = scan_ws(s, j);
            if b == s.len() {
                Ok(v)
            } else {
                Err(CallError::Syntax)
            }
        },
    }
}

} // verus!
