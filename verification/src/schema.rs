//! The export surface of a loaded artifact: function signatures, lookup
//! by name, the binding of raw argument spans to typed values, and the
//! sentinel-filled results buffer of an invocation.
use crate::codec::{
    find_name, fm_elems, fm_value, format_elems, format_value, lemma_find_absent,
    lemma_find_first, models_of, name_views, push_chars, slot_models, slot_val, sp_complete,
};
use crate::error::{CallError, ErrModel};
use crate::parse::parse_value_text;
use crate::value::{TypeModel, Value, ValueType};
use vstd::prelude::*;

verus! {

broadcast use vstd::seq::group_seq_axioms, vstd::seq_lib::group_seq_lib_default, vstd::std_specs::vec::group_vec_axioms;

/// One exported function: its name, its ordered named parameters, and its
/// ordered unnamed result types.
pub struct FunctionSignature {
    /// The export name, unique within the surface.
    pub name: Vec<char>,
    /// The ordered parameters: name and declared type.
    pub params: Vec<(Vec<char>, ValueType)>,
    /// The ordered result types.
    pub results: Vec<ValueType>,
}

/// The names of an export surface, in declaration order.
pub open spec fn export_names(sigs: Seq<FunctionSignature>) -> Seq<Seq<char>> {
    Seq::new(sigs.len(), |i: int| sigs[i].name@)
}

/// The models of a parameter list.
pub open spec fn param_models(ps: Seq<(Vec<char>, ValueType)>) -> Seq<(Seq<char>, TypeModel)> {
    Seq::new(ps.len(), |i: int| (ps[i].0@, ps[i].1.model()))
}

/// Whether two character vectors hold the same text.
pub fn vec_chars_eq(a: &Vec<char>, b: &Vec<char>) -> (r: bool)
    ensures
        r == (a@ == b@),
{
    if a.len() != b.len() {
        return false;
    }
    let mut j: usize = 0;
    while j < a.len()
        invariant
            j <= a@.len(),
            a@.len() == b@.len(),
            forall|k: int| 0 <= k < j ==> a@[k] == b@[k],
        decreases a@.len() - j,
    {
        if a[j] != b[j] {
            return false;
        }
        j = j + 1;
    }
    proof {
        assert(a@ =~= b@);
    }
    true
}

/// Look up an export by name. Returns the index of the first signature
/// with that name, and fails with `NotFound` naming the export exactly
/// when no signature carries it.
pub fn find_export(sigs: &Vec<FunctionSignature>, name: &Vec<char>) -> (r: Result<
    usize,
    CallError,
>)
    ensures
        ({
            let fr = find_name(export_names(sigs@), name@);
            match r {
                Ok(ix) => ix < sigs@.len() && fr == ix as int,
                Err(e) => fr == -1 && e.model() == ErrModel::NotFound(name@),
            }
        }),
{
    let mut j: usize = 0;
    while j < sigs.len()
        invariant
            j <= sigs@.len(),
            forall|k: int| 0 <= k < j ==> export_names(sigs@)[k] != name@,
        decreases sigs@.len() - j,
    {
        if vec_chars_eq(&sigs[j].name, name) {
            proof {
                lemma_find_first(export_names(sigs@), name@, j as int);
            }
            return Ok(j);
        }
        j = j + 1;
    }
    proof {
        lemma_find_absent(export_names(sigs@), name@);
    }
    Err(CallError::NotFound(crate::codec::copy_chars(name)))
}

/// The index of the first argument span that does not parse at its
/// parameter's type, or `-1` when all parse.
pub open spec fn first_bad_arg(
    args: Seq<Seq<char>>,
    params: Seq<(Seq<char>, TypeModel)>,
    i: int,
) -> int
    decreases args.len() - i,
{
    if i < 0 || i >= args.len() {
        -1
    } else if sp_complete(args[i], params[i].1) is Err {
        i
    } else {
        first_bad_arg(args, params, i + 1)
    }
}

/// A failing argument before which all arguments parse is the first bad
/// one.
proof fn lemma_first_bad_at(
    args: Seq<Seq<char>>,
    params: Seq<(Seq<char>, TypeModel)>,
    i: int,
    b: int,
)
    requires
        0 <= i <= b < args.len(),
        forall|k: int| i <= k < b ==> !(sp_complete(#[trigger] args[k], params[k].1) is Err),
        sp_complete(args[b], params[b].1) is Err,
    ensures
        first_bad_arg(args, params, i) == b,
    decreases b - i,
{
    if i < b {
        lemma_first_bad_at(args, params, i + 1, b);
    }
}

/// When every argument parses, none is bad.
proof fn lemma_no_bad_arg(args: Seq<Seq<char>>, params: Seq<(Seq<char>, TypeModel)>, i: int)
    requires
        0 <= i <= args.len(),
        forall|k: int| i <= k < args.len() ==> !(sp_complete(#[trigger] args[k], params[k].1)
            is Err),
    ensures
        first_bad_arg(args, params, i) == -1,
    decreases args.len() - i,
{
    if i < args.len() {
        lemma_no_bad_arg(args, params, i + 1);
    }
}

/// Bind raw argument spans to an export's parameters. An arity mismatch
/// is a type mismatch; otherwise each span is parsed at its parameter's
/// declared type, and the first failing span's error is returned.
#[verifier::rlimit(100)]
pub fn bind_args(sig: &FunctionSignature, args: &Vec<Vec<char>>) -> (r: Result<
    Vec<Value>,
    CallError,
>)
    ensures
        ({
            let avs = name_views(args@);
            let pts = param_models(sig.params@);
            match r {
                Ok(vs) => {
                    &&& avs.len() == pts.len()
                    &&& vs@.len() == pts.len()
                    &&& forall|i: int|
                        0 <= i < vs@.len() ==> sp_complete(avs[i], pts[i].1) == Ok::<
                            _,
                            ErrModel,
                        >(vs@[i].model())
                },
                Err(e) => if avs.len() != pts.len() {
                    e.model() == ErrModel::TypeMismatch
                } else {
                    let b = first_bad_arg(avs, pts, 0);
                    &&& b >= 0
                    &&& sp_complete(avs[b], pts[b].1) is Err
                    &&& e.model() == sp_complete(avs[b], pts[b].1)->Err_0
                },
            }
        }),
{
    let ghost avs = name_views(args@);
    let ghost pts = param_models(sig.params@);
    if args.len() != sig.params.len() {
        return Err(CallError::TypeMismatch);
    }
    let mut vs: Vec<Value> = Vec::new();
    let mut i: usize = 0;
    while i < args.len()
        invariant
            i <= args@.len(),
            args@.len() == sig.params@.len(),
            avs == name_views(args@),
            pts == param_models(sig.params@),
            vs@.len() == i,
            forall|k: int|
                0 <= k < i ==> sp_complete(avs[k], pts[k].1) == Ok::<_, ErrModel>(
                    vs@[k].model(),
                ),
        decreases args@.len() - i,
    {
        match parse_value_text(&args[i], &sig.params[i].1) {
            Ok(v) => {
                vs.push(v);
            },
            Err(e) => {
                proof {
                    assert forall|k: int|
                        0 <= k < i implies !(sp_complete(#[trigger] avs[k], pts[k].1)
                        is Err) by {}
                    lemma_first_bad_at(avs, pts, 0, i as int);
                }
                return Err(e);
            },
        }
        i = i + 1;
    }
    proof {
        lemma_no_bad_arg(avs, pts, 0);
    }
    Ok(vs)
}

/// A results buffer sized to the signature's result arity, each slot
/// holding the sentinel `None`, which no valid value equals; the
/// execution engine overwrites the slots, and an unwritten slot is
/// detected when the buffer is accepted.
pub fn fresh_result_slots(arity: usize) -> (r: Vec<Option<Value>>)
    ensures
        r@.len() == arity,
        forall|i: int| 0 <= i < r@.len() ==> (#[trigger] r@[i]) is None,
{
    let mut out: Vec<Option<Value>> = Vec::new();
    let mut i: usize = 0;
    while i < arity
        invariant
            out@.len() == i,
            i <= arity,
            forall|k: int| 0 <= k < i ==> (#[trigger] out@[k]) is None,
        decreases arity - i,
    {
        out.push(None);
        i = i + 1;
    }
    out
}

/// Accept a filled results buffer: every slot must have been written, and
/// a remaining sentinel is a boundary fault.
#[verifier::loop_isolation(false)]
pub fn accept_results(slots: Vec<Option<Value>>) -> (r: Result<Vec<Value>, CallError>)
    ensures
        ({
            let sm = slot_models(slots@);
            match r {
                Ok(vs) => {
                    &&& vs@.len() == sm.len()
                    &&& forall|i: int|
                        0 <= i < sm.len() ==> (#[trigger] sm[i]) is Some && vs@[i].model()
                            == slot_val(sm[i])
                },
                Err(e) => (exists|i: int| 0 <= i < sm.len() && (#[trigger] sm[i]) is None)
                    && e.model() == ErrModel::Invocation,
            }
        }),
{
    let ghost sm = slot_models(slots@);
    let ghost total = slots@.len();
    let mut rest = slots;
    let mut vs: Vec<Value> = Vec::new();
    let ghost mut i: int = 0;
    while rest.len() > 0
        invariant
            sm.len() == total,
            0 <= i,
            i + rest@.len() == total,
            vs@.len() == i,
            forall|k: int|
                0 <= k < rest@.len() ==> slot_models(rest@)[k] == sm[k + i],
            forall|k: int|
                0 <= k < i ==> (#[trigger] sm[k]) is Some && vs@[k].model() == slot_val(sm[k]),
        decreases rest@.len(),
    {
        let ghost prev = rest@;
        let slot = rest.remove(0);
        proof {
            assert(rest@ =~= prev.drop_first());
            assert(slot_models(prev)[0] == sm[0 + i]);
        }
        match slot {
            None => {
                proof {
                    assert(sm[i] is None);
                }
                return Err(CallError::Invocation);
            },
            Some(v) => {
                proof {
                    assert(sm[i] == Some(v.model()));
                    assert forall|k: int|
                        0 <= k < rest@.len() implies slot_models(rest@)[k] == sm[k + i + 1] by {
                        assert(rest@[k] == prev[k + 1]);
                        assert(slot_models(prev)[k + 1] == sm[k + 1 + i]);
                    }
                }
                vs.push(v);
            },
        }
        proof {
            i = i + 1;
        }
    }
    Ok(vs)
}

/// The echo of a bound call: the export name followed by the canonical
/// parenthesized argument list.
pub fn format_call_echo(name: &Vec<char>, args: &Vec<Value>) -> (r: Vec<char>)
    ensures
        r@ == name@ + seq!['('] + fm_elems(models_of(args@), 0) + seq![')'],
{
    let mut out: Vec<char> = Vec::new();
    push_chars(&mut out, name);
    out.push('(');
    format_elems(args, 0, &mut out);
    out.push(')');
    proof {
        assert(out@ =~= name@ + seq!['('] + fm_elems(models_of(args@), 0) + seq![')']);
    }
    out
}

/// The rendering of a result list: a single result stands bare, any
/// other arity is parenthesized.
pub fn format_results(vs: &Vec<Value>) -> (r: Vec<char>)
    ensures
        ({
            if vs@.len() == 1 {
                r@ == fm_value(vs@[0].model())
            } else {
                r@ == seq!['('] + fm_elems(models_of(vs@), 0) + seq![')']
            }
        }),
{
    let mut out: Vec<char> = Vec::new();
    if vs.len() == 1 {
        format_value(&vs[0], &mut out);
        proof {
            assert(out@ =~= fm_value(vs@[0].model()));
        }
    } else {
        out.push('(');
        format_elems(vs, 0, &mut out);
        out.push(')');
        proof {
            assert(out@ =~= seq!['('] + fm_elems(models_of(vs@), 0) + seq![')']);
        }
    }
    out
}

} // verus!
