//! The completion engine: textual continuations of a partially typed call
//! expression, computed from the export surface and never by invoking
//! anything.
//!
//! Function-name mode proposes, for every export extending the typed
//! prefix, the remainder of its name (or an opening parenthesis when the
//! name is already complete), in lexicographic order. Argument mode walks
//! the partial argument text to the cursor's top-level argument position
//! and proposes continuations fitting that parameter's declared type;
//! a cursor nested inside an unfinished bracketed literal is not a
//! recognizable context and yields `NoCompletions`.
use crate::codec::{copy_chars, name_views};
use crate::error::{CallError, ErrModel};
use crate::schema::{param_models, FunctionSignature};
use crate::text::{sp_body, ws_count};
use crate::value::TypeModel;
use vstd::prelude::*;

verus! {

broadcast use vstd::seq::group_seq_axioms, vstd::seq_lib::group_seq_lib_default, vstd::std_specs::vec::group_vec_axioms;

/// Lexicographic order on text.
pub open spec fn lex_le(a: Seq<char>, b: Seq<char>) -> bool
    decreases a.len(),
{
    if a.len() == 0 {
        true
    } else if b.len() == 0 {
        false
    } else if a[0] != b[0] {
        a[0] < b[0]
    } else {
        lex_le(a.drop_first(), b.drop_first())
    }
}

/// Whether `p` is a prefix of `e`.
pub open spec fn is_prefix(p: Seq<char>, e: Seq<char>) -> bool {
    e.len() >= p.len() && e.take(p.len() as int) == p
}

/// The candidate fragment for export `e` under prefix `p`: the rest of
/// the name, or an opening parenthesis when the name is complete.
pub open spec fn cand_of(p: Seq<char>, e: Seq<char>) -> Seq<char> {
    if e.len() == p.len() {
        seq!['(']
    } else {
        e.skip(p.len() as int)
    }
}

/// Insert `x` into the sorted list `xs`, before the first entry it does
/// not exceed.
pub open spec fn insert_sorted(x: Seq<char>, xs: Seq<Seq<char>>) -> Seq<Seq<char>>
    decreases xs.len(),
{
    if xs.len() == 0 {
        seq![x]
    } else if lex_le(x, xs[0]) {
        seq![x] + xs
    } else {
        seq![xs[0]] + insert_sorted(x, xs.drop_first())
    }
}

/// The sorted candidates for the exports from position `i` on.
pub open spec fn sorted_cands(exports: Seq<Seq<char>>, p: Seq<char>, i: int) -> Seq<Seq<char>>
    decreases exports.len() - i,
{
    if i < 0 || i >= exports.len() {
        Seq::empty()
    } else {
        let rest = sorted_cands(exports, p, i + 1);
        if is_prefix(p, exports[i]) {
            insert_sorted(cand_of(p, exports[i]), rest)
        } else {
            rest
        }
    }
}

/// A sorted candidate list: each entry precedes the next.
pub open spec fn lex_sorted(xs: Seq<Seq<char>>) -> bool {
    forall|i: int, j: int| 0 <= i < j < xs.len() ==> lex_le(#[trigger] xs[i], #[trigger] xs[j])
}

/// The lexicographic order is total.
proof fn lemma_lex_total(a: Seq<char>, b: Seq<char>)
    ensures
        lex_le(a, b) || lex_le(b, a),
    decreases a.len(),
{
    if a.len() > 0 && b.len() > 0 && a[0] == b[0] {
        lemma_lex_total(a.drop_first(), b.drop_first());
    }
}

/// The lexicographic order is transitive.
proof fn lemma_lex_trans(a: Seq<char>, b: Seq<char>, c: Seq<char>)
    requires
        lex_le(a, b),
        lex_le(b, c),
    ensures
        lex_le(a, c),
    decreases a.len(),
{
    if a.len() > 0 && b.len() > 0 && c.len() > 0 && a[0] == b[0] && b[0] == c[0] {
        lemma_lex_trans(a.drop_first(), b.drop_first(), c.drop_first());
    }
}

/// Insertion keeps a candidate list sorted.
proof fn lemma_insert_sorted(x: Seq<char>, xs: Seq<Seq<char>>)
    requires
        lex_sorted(xs),
    ensures
        lex_sorted(insert_sorted(x, xs)),
        insert_sorted(x, xs).len() == xs.len() + 1,
    decreases xs.len(),
{
    if xs.len() == 0 {
    } else if lex_le(x, xs[0]) {
        let out = seq![x] + xs;
        assert forall|i: int, j: int| 0 <= i < j < out.len() implies lex_le(
            #[trigger] out[i],
            #[trigger] out[j],
        ) by {
            if i == 0 {
                if j > 1 {
                    lemma_lex_trans(x, xs[0], xs[j - 1]);
                }
            }
        }
    } else {
        assert forall|i: int, j: int|
            0 <= i < j < xs.drop_first().len() implies lex_le(
            #[trigger] xs.drop_first()[i],
            #[trigger] xs.drop_first()[j],
        ) by {
            assert(xs.drop_first()[i] == xs[i + 1]);
            assert(xs.drop_first()[j] == xs[j + 1]);
        }
        lemma_insert_sorted(x, xs.drop_first());
        let inner = insert_sorted(x, xs.drop_first());
        let out = seq![xs[0]] + inner;
        lemma_lex_total(x, xs[0]);
        assert(lex_le(xs[0], x));
        assert forall|i: int, j: int| 0 <= i < j < out.len() implies lex_le(
            #[trigger] out[i],
            #[trigger] out[j],
        ) by {
            if i == 0 {
                lemma_insert_head(x, xs.drop_first(), xs[0]);
            }
        }
    }
}

/// A bound below `x` and below a sorted list bounds its insertion.
proof fn lemma_insert_head(x: Seq<char>, xs: Seq<Seq<char>>, lo: Seq<char>)
    requires
        lex_le(lo, x),
        forall|k: int| 0 <= k < xs.len() ==> lex_le(lo, #[trigger] xs[k]),
    ensures
        forall|k: int|
            0 <= k < insert_sorted(x, xs).len() ==> lex_le(lo, #[trigger] insert_sorted(x, xs)[k]),
    decreases xs.len(),
{
    let out = insert_sorted(x, xs);
    if xs.len() == 0 {
        assert(out[0] == x);
    } else if lex_le(x, xs[0]) {
        assert forall|k: int| 0 <= k < out.len() implies lex_le(lo, #[trigger] out[k]) by {
            if k > 0 {
                assert(out[k] == xs[k - 1]);
            }
        }
    } else {
        assert forall|k: int| 0 <= k < xs.drop_first().len() implies lex_le(
            lo,
            #[trigger] xs.drop_first()[k],
        ) by {
            assert(xs.drop_first()[k] == xs[k + 1]);
        }
        lemma_insert_head(x, xs.drop_first(), lo);
        let inner = insert_sorted(x, xs.drop_first());
        assert forall|k: int| 0 <= k < out.len() implies lex_le(lo, #[trigger] out[k]) by {
            if k > 0 {
                assert(out[k] == inner[k - 1]);
            }
        }
    }
}

/// The law of function-name completion: the candidate list is sorted
/// lexicographically.
pub proof fn lemma_name_candidates_sorted(exports: Seq<Seq<char>>, p: Seq<char>, i: int)
    ensures
        lex_sorted(sorted_cands(exports, p, i)),
    decreases exports.len() - i,
{
    if 0 <= i < exports.len() {
        lemma_name_candidates_sorted(exports, p, i + 1);
        if is_prefix(p, exports[i]) {
            lemma_insert_sorted(cand_of(p, exports[i]), sorted_cands(exports, p, i + 1));
        }
    }
}

/// Whether `p` is a prefix of `e`, executably.
fn is_prefix_x(p: &[char], e: &Vec<char>) -> (r: bool)
    ensures
        r == is_prefix(p@, e@),
{
    if e.len() < p.len() {
        proof {
            assert(e@.len() < p@.len());
        }
        return false;
    }
    let mut j: usize = 0;
    while j < p.len()
        invariant
            j <= p@.len() <= e@.len(),
            forall|k: int| 0 <= k < j ==> p@[k] == e@[k],
        decreases p@.len() - j,
    {
        if p[j] != e[j] {
            proof {
                if is_prefix(p@, e@) {
                    assert(e@.take(p@.len() as int)[j as int] == e@[j as int]);
                }
            }
            return false;
        }
        j = j + 1;
    }
    proof {
        assert(e@.take(p@.len() as int) =~= p@);
    }
    true
}

/// The lexicographic order, executably, from position `i` on.
fn lex_le_from(a: &Vec<char>, b: &Vec<char>, i: usize) -> (r: bool)
    requires
        i <= a@.len(),
        i <= b@.len(),
    ensures
        r == lex_le(a@.skip(i as int), b@.skip(i as int)),
    decreases a@.len() - i,
{
    if i == a.len() {
        proof {
            assert(a@.skip(i as int).len() == 0);
        }
        true
    } else if i == b.len() {
        proof {
            assert(b@.skip(i as int).len() == 0);
            assert(a@.skip(i as int).len() > 0);
        }
        false
    } else {
        proof {
            assert(a@.skip(i as int)[0] == a@[i as int]);
            assert(b@.skip(i as int)[0] == b@[i as int]);
            assert(a@.skip(i as int).drop_first() =~= a@.skip(i as int + 1));
            assert(b@.skip(i as int).drop_first() =~= b@.skip(i as int + 1));
        }
        if a[i] != b[i] {
            a[i] < b[i]
        } else {
            lex_le_from(a, b, i + 1)
        }
    }
}

/// Insert `x` into the sorted vector `xs`, executably.
fn insert_sorted_x(x: Vec<char>, mut xs: Vec<Vec<char>>) -> (r: Vec<Vec<char>>)
    ensures
        name_views(r@) == insert_sorted(x@, name_views(xs@)),
    decreases xs@.len(),
{
    if xs.len() == 0 {
        let mut out: Vec<Vec<char>> = Vec::new();
        out.push(x);
        proof {
            assert(name_views(out@) =~= seq![x@]);
            assert(name_views(xs@) =~= Seq::<Seq<char>>::empty());
        }
        out
    } else if lex_le_from(&x, &xs[0], 0) {
        proof {
            assert(x@.skip(0) =~= x@);
            assert(xs@[0]@.skip(0) =~= xs@[0]@);
            assert(name_views(xs@)[0] == xs@[0]@);
        }
        let ghost xs0 = xs@;
        xs.insert(0, x);
        proof {
            assert(name_views(xs@) =~= seq![x@] + name_views(xs0));
        }
        xs
    } else {
        proof {
            assert(x@.skip(0) =~= x@);
            assert(xs@[0]@.skip(0) =~= xs@[0]@);
            assert(name_views(xs@)[0] == xs@[0]@);
        }
        let ghost xs0 = xs@;
        let first = xs.remove(0);
        proof {
            assert(xs@ =~= xs0.drop_first());
            assert forall|k: int| 0 <= k < xs@.len() implies name_views(xs@)[k] == name_views(
                xs0,
            ).drop_first()[k] by {
                assert(xs@[k] == xs0[k + 1]);
            }
            assert(name_views(xs@) =~= name_views(xs0).drop_first());
        }
        let mut rest = insert_sorted_x(x, xs);
        let ghost rest0 = rest@;
        rest.insert(0, first);
        proof {
            assert(name_views(rest@) =~= seq![first@] + name_views(rest0));
            assert(first@ == name_views(xs0)[0]);
        }
        rest
    }
}

/// Function-name completion: the sorted candidate fragments of every
/// export that extends the typed prefix; an already complete name's
/// candidate is the opening parenthesis.
pub fn complete_name(exports: &Vec<Vec<char>>, partial: &[char]) -> (r: Vec<Vec<char>>)
    ensures
        name_views(r@) == sorted_cands(name_views(exports@), partial@, 0),
        lex_sorted(name_views(r@)),
{
    proof {
        lemma_name_candidates_sorted(name_views(exports@), partial@, 0);
    }
    complete_name_from(exports, partial, 0)
}

/// The sorted candidates for the exports from position `i` on,
/// executably.
fn complete_name_from(exports: &Vec<Vec<char>>, partial: &[char], i: usize) -> (r: Vec<Vec<char>>)
    requires
        i <= exports@.len(),
    ensures
        name_views(r@) == sorted_cands(name_views(exports@), partial@, i as int),
    decreases exports@.len() - i,
{
    if i == exports.len() {
        let out: Vec<Vec<char>> = Vec::new();
        proof {
            assert(name_views(out@) =~= Seq::<Seq<char>>::empty());
        }
        out
    } else {
        let rest = complete_name_from(exports, partial, i + 1);
        proof {
            assert(name_views(exports@)[i as int] == exports@[i as int]@);
        }
        if is_prefix_x(partial, &exports[i]) {
            let e = &exports[i];
            let c: Vec<char> = if e.len() == partial.len() {
                let mut v: Vec<char> = Vec::new();
                v.push('(');
                proof {
                    assert(v@ =~= seq!['(']);
                }
                v
            } else {
                let v = crate::codec::copy_range(e, partial.len(), e.len());
                proof {
                    assert(v@ =~= e@.skip(partial@.len() as int));
                }
                v
            };
            proof {
                assert(c@ == cand_of(partial@, exports@[i as int]@));
            }
            insert_sorted_x(c, rest)
        } else {
            rest
        }
    }
}

/// Walk the partial argument text (everything after the call's opening
/// parenthesis) to the cursor: the count of completed top-level arguments
/// and the text of the argument under the cursor. A closing bracket that
/// matches no opening one means the cursor is past the call.
pub open spec fn sp_cursor(s: Seq<char>, depth: int, cnt: int, cur: Seq<char>) -> Result<
    (int, Seq<char>),
    ErrModel,
>
    decreases s.len(),
{
    if s.len() == 0 {
        Ok((cnt, cur))
    } else {
        let c = s[0];
        if c == '"' || c == '\'' {
            match sp_body(s.skip(1), c) {
                Err(_) => Ok((cnt, cur + s)),
                Ok((_body, k)) => if !(0 <= k && 2 + k <= s.len()) {
                    Ok((cnt, cur + s))
                } else {
                    sp_cursor(s.skip(2 + k), depth, cnt, cur + s.take(2 + k))
                },
            }
        } else if c == '(' || c == '[' || c == '{' {
            sp_cursor(s.skip(1), depth + 1, cnt, cur.push(c))
        } else if c == ')' || c == ']' || c == '}' {
            if depth <= 0 {
                Err(ErrModel::NoCompletions)
            } else {
                sp_cursor(s.skip(1), depth - 1, cnt, cur.push(c))
            }
        } else if c == ',' && depth == 0 {
            sp_cursor(s.skip(1), depth, cnt + 1, Seq::empty())
        } else {
            sp_cursor(s.skip(1), depth, cnt, cur.push(c))
        }
    }
}

/// The keyword continuations of `options` under the typed token `tk`:
/// the remainder of each option that `tk` is a proper prefix of, in the
/// given order.
pub open spec fn kw_cands(options: Seq<Seq<char>>, tk: Seq<char>, i: int) -> Seq<Seq<char>>
    decreases options.len() - i,
{
    if i < 0 || i >= options.len() {
        Seq::empty()
    } else {
        let rest = kw_cands(options, tk, i + 1);
        if is_prefix(tk, options[i]) && options[i].len() > tk.len() {
            seq![options[i].skip(tk.len() as int)] + rest
        } else {
            rest
        }
    }
}

/// The candidate continuations for a token `tk` at type `t`: literal
/// keywords for booleans, options and results, case names for variants
/// and enumerations, and the opening delimiter of the bracketed and
/// quoted forms when nothing is typed yet. Numbers, characters and
/// handles offer no recognizable continuation.
pub open spec fn type_cands(t: TypeModel, tk: Seq<char>) -> Result<Seq<Seq<char>>, ErrModel> {
    match t {
        TypeModel::Bool => Ok(kw_cands(seq![crate::codec::kw_false(), crate::codec::kw_true()], tk, 0)),
        TypeModel::Text => if tk.len() == 0 {
            Ok(seq![seq!['"']])
        } else {
            Err(ErrModel::NoCompletions)
        },
        TypeModel::Enum(ns) => Ok(kw_cands(ns, tk, 0)),
        TypeModel::Variant(cs) => Ok(
            kw_cands(Seq::new(cs.len(), |k: int| cs[k].0), tk, 0),
        ),
        TypeModel::Optional(_) => Ok(
            kw_cands(seq![crate::codec::kw_none(), crate::codec::kw_some()], tk, 0),
        ),
        TypeModel::Expected(_, _) => Ok(
            kw_cands(seq![crate::codec::kw_err(), crate::codec::kw_ok()], tk, 0),
        ),
        TypeModel::Record(_) => if tk.len() == 0 {
            Ok(seq![seq!['{']])
        } else {
            Err(ErrModel::NoCompletions)
        },
        TypeModel::Flags(_) => if tk.len() == 0 {
            Ok(seq![seq!['{']])
        } else {
            Err(ErrModel::NoCompletions)
        },
        TypeModel::List(_) => if tk.len() == 0 {
            Ok(seq![seq!['[']])
        } else {
            Err(ErrModel::NoCompletions)
        },
        TypeModel::Tuple(_) => if tk.len() == 0 {
            Ok(seq![seq!['(']])
        } else {
            Err(ErrModel::NoCompletions)
        },
        _ => Err(ErrModel::NoCompletions),
    }
}

/// Argument completion for a resolved export: the candidates fitting the
/// declared type of the argument under the cursor, given the partial text
/// after the call's opening parenthesis. A cursor past the declared
/// arity, inside a nested unfinished literal, or at a type with no
/// literal continuation is not a recognizable context.
pub open spec fn sp_complete_arg(
    sig_params: Seq<(Seq<char>, TypeModel)>,
    partial: Seq<char>,
) -> Result<Seq<Seq<char>>, ErrModel> {
    match sp_cursor(partial, 0, 0, Seq::empty()) {
        Err(e) => Err(e),
        Ok((cnt, cur)) => if !(0 <= cnt < sig_params.len()) {
            Err(ErrModel::NoCompletions)
        } else {
            let w = ws_count(cur);
            if !(0 <= w <= cur.len()) {
                Err(ErrModel::NoCompletions)
            } else {
                type_cands(sig_params[cnt].1, cur.skip(w))
            }
        },
    }
}

/// Walk the partial argument text to the cursor, mirroring
/// [`sp_cursor`].
#[verifier::rlimit(100)]
#[verifier::spinoff_prover]
fn scan_cursor(s: &[char], i: usize, depth: usize, cnt: usize, cur: Vec<char>) -> (r: Result<
    (usize, Vec<char>),
    CallError,
>)
    requires
        i <= s@.len(),
        depth <= i,
        cnt <= i,
    ensures
        ({
            match (r, sp_cursor(s@.skip(i as int), depth as int, cnt as int, cur@)) {
                (Ok((c2, t2)), Ok((sc, st))) => c2 as int == sc && t2@ == st,
                (Err(e), Err(em)) => e.model() == em,
                _ => false,
            }
        }),
    decreases s@.len() - i,
{
    let ghost suf = s@.skip(i as int);
    if i >= s.len() {
        return Ok((cnt, cur));
    }
    let c = s[i];
    proof {
        assert(suf[0] == s@[i as int]);
    }
    if c == '"' || c == '\'' {
        proof {
            assert(suf.skip(1) =~= s@.skip(i + 1));
        }
        let mut scratch: Vec<char> = Vec::new();
        match crate::codec::scan_body(s, i + 1, c, &mut scratch) {
            Err(_) => {
                let mut cur2 = cur;
                let mut q: usize = i;
                let ghost cur0 = cur2@;
                while q < s.len()
                    invariant
                        i <= q <= s@.len(),
                        cur2@ == cur0 + s@.subrange(i as int, q as int),
                    decreases s@.len() - q,
                {
                    cur2.push(s[q]);
                    proof {
                        assert(s@.subrange(i as int, q + 1) =~= s@.subrange(i as int, q as int)
                            .push(s@[q as int]));
                    }
                    q = q + 1;
                }
                proof {
                    assert(s@.subrange(i as int, s@.len() as int) =~= suf);
                    assert(cur2@ == cur@ + suf);
                }
                Ok((cnt, cur2))
            },
            Ok(j) => {
                let mut cur2 = cur;
                let mut q: usize = i;
                let jend = j + 1;
                let ghost cur0 = cur2@;
                while q < jend
                    invariant
                        i <= q <= jend <= s@.len(),
                        jend == j + 1,
                        cur2@ == cur0 + s@.subrange(i as int, q as int),
                    decreases jend - q,
                {
                    cur2.push(s[q]);
                    proof {
                        assert(s@.subrange(i as int, q + 1) =~= s@.subrange(i as int, q as int)
                            .push(s@[q as int]));
                    }
                    q = q + 1;
                }
                proof {
                    let k = j - (i + 1);
                    assert(suf.take(2 + k) =~= s@.subrange(i as int, j + 1));
                    assert(cur2@ == cur@ + suf.take(2 + k));
                    assert(suf.skip(2 + k) =~= s@.skip(j + 1));
                }
                scan_cursor(s, j + 1, depth, cnt, cur2)
            },
        }
    } else if c == '(' || c == '[' || c == '{' {
        let mut cur2 = cur;
        cur2.push(c);
        proof {
            assert(suf.skip(1) =~= s@.skip(i + 1));
        }
        scan_cursor(s, i + 1, depth + 1, cnt, cur2)
    } else if c == ')' || c == ']' || c == '}' {
        if depth == 0 {
            Err(CallError::NoCompletions)
        } else {
            let mut cur2 = cur;
            cur2.push(c);
            proof {
                assert(suf.skip(1) =~= s@.skip(i + 1));
            }
            scan_cursor(s, i + 1, depth - 1, cnt, cur2)
        }
    } else if c == ',' && depth == 0 {
        proof {
            assert(suf.skip(1) =~= s@.skip(i + 1));
        }
        scan_cursor(s, i + 1, depth, cnt + 1, Vec::new())
    } else {
        let mut cur2 = cur;
        cur2.push(c);
        proof {
            assert(suf.skip(1) =~= s@.skip(i + 1));
        }
        scan_cursor(s, i + 1, depth, cnt, cur2)
    }
}

/// The keyword continuations of `options` under `tk`, mirroring
/// [`kw_cands`].
fn kw_cands_x(options: &Vec<Vec<char>>, tk: &Vec<char>, i: usize) -> (r: Vec<Vec<char>>)
    requires
        i <= options@.len(),
    ensures
        name_views(r@) == kw_cands(name_views(options@), tk@, i as int),
    decreases options@.len() - i,
{
    if i == options.len() {
        let out: Vec<Vec<char>> = Vec::new();
        proof {
            assert(name_views(out@) =~= Seq::<Seq<char>>::empty());
        }
        out
    } else {
        let mut rest = kw_cands_x(options, tk, i + 1);
        proof {
            assert(name_views(options@)[i as int] == options@[i as int]@);
        }
        if is_prefix_x(tk, &options[i]) && options[i].len() > tk.len() {
            let c = crate::codec::copy_range(&options[i], tk.len(), options[i].len());
            proof {
                assert(c@ =~= options@[i as int]@.skip(tk@.len() as int));
            }
            let ghost rest0 = rest@;
            rest.insert(0, c);
            proof {
                assert(name_views(rest@) =~= seq![options@[i as int]@.skip(tk@.len() as int)]
                    + name_views(rest0));
            }
            rest
        } else {
            rest
        }
    }
}

/// The candidate continuations for the token at type `t`, mirroring
/// [`type_cands`].
#[verifier::rlimit(100)]
#[verifier::spinoff_prover]
fn type_cands_x(t: &crate::value::ValueType, tk: &Vec<char>) -> (r: Result<
    Vec<Vec<char>>,
    CallError,
>)
    ensures
        ({
            match (r, type_cands(t.model(), tk@)) {
                (Ok(cs), Ok(sc)) => name_views(cs@) == sc,
                (Err(e), Err(em)) => e.model() == em,
                _ => false,
            }
        }),
{
    match t {
        crate::value::ValueType::Bool => {
            let mut f: Vec<char> = Vec::new();
            f.push('f');
            f.push('a');
            f.push('l');
            f.push('s');
            f.push('e');
            let mut tr: Vec<char> = Vec::new();
            tr.push('t');
            tr.push('r');
            tr.push('u');
            tr.push('e');
            let mut opts: Vec<Vec<char>> = Vec::new();
            proof {
                assert(f@ =~= crate::codec::kw_false());
                assert(tr@ =~= crate::codec::kw_true());
            }
            opts.push(f);
            opts.push(tr);
            proof {
                assert(name_views(opts@) =~= seq![
                    crate::codec::kw_false(),
                    crate::codec::kw_true(),
                ]);
            }
            Ok(kw_cands_x(&opts, tk, 0))
        },
        crate::value::ValueType::Optional(..) => {
            let mut n: Vec<char> = Vec::new();
            n.push('n');
            n.push('o');
            n.push('n');
            n.push('e');
            let mut so: Vec<char> = Vec::new();
            so.push('s');
            so.push('o');
            so.push('m');
            so.push('e');
            let mut opts: Vec<Vec<char>> = Vec::new();
            proof {
                assert(n@ =~= crate::codec::kw_none());
                assert(so@ =~= crate::codec::kw_some());
            }
            opts.push(n);
            opts.push(so);
            proof {
                assert(name_views(opts@) =~= seq![
                    crate::codec::kw_none(),
                    crate::codec::kw_some(),
                ]);
            }
            Ok(kw_cands_x(&opts, tk, 0))
        },
        crate::value::ValueType::Expected(..) => {
            let mut er: Vec<char> = Vec::new();
            er.push('e');
            er.push('r');
            er.push('r');
            let mut okk: Vec<char> = Vec::new();
            okk.push('o');
            okk.push('k');
            let mut opts: Vec<Vec<char>> = Vec::new();
            proof {
                assert(er@ =~= crate::codec::kw_err());
                assert(okk@ =~= crate::codec::kw_ok());
            }
            opts.push(er);
            opts.push(okk);
            proof {
                assert(name_views(opts@) =~= seq![crate::codec::kw_err(), crate::codec::kw_ok()]);
            }
            Ok(kw_cands_x(&opts, tk, 0))
        },
        crate::value::ValueType::Enum(ns) => {
            proof {
                assert(name_views(ns@) =~= t.model()->Enum_0);
            }
            Ok(kw_cands_x(ns, tk, 0))
        },
        crate::value::ValueType::Variant(cs) => {
            let mut names: Vec<Vec<char>> = Vec::new();
            let mut q: usize = 0;
            while q < cs.len()
                invariant
                    q <= cs@.len(),
                    names@.len() == q,
                    forall|m: int| 0 <= m < q ==> (#[trigger] names@[m]@) == cs@[m].0@,
                decreases cs@.len() - q,
            {
                names.push(copy_chars(&cs[q].0));
                q = q + 1;
            }
            proof {
                assert(name_views(names@) =~= Seq::new(
                    t.model()->Variant_0.len(),
                    |k: int| t.model()->Variant_0[k].0,
                ));
            }
            Ok(kw_cands_x(&names, tk, 0))
        },
        crate::value::ValueType::Text => single_open(tk, '"'),
        crate::value::ValueType::Record(..) => single_open(tk, '{'),
        crate::value::ValueType::Flags(..) => single_open(tk, '{'),
        crate::value::ValueType::List(..) => single_open(tk, '['),
        crate::value::ValueType::Tuple(..) => single_open(tk, '('),
        _ => Err(CallError::NoCompletions),
    }
}

/// The single opening-delimiter candidate, offered only when nothing of
/// the literal has been typed yet.
fn single_open(tk: &Vec<char>, open_char: char) -> (r: Result<Vec<Vec<char>>, CallError>)
    ensures
        ({
            match r {
                Ok(cs) => tk@.len() == 0 && name_views(cs@) == seq![seq![open_char]],
                Err(e) => tk@.len() != 0 && e.model() == ErrModel::NoCompletions,
            }
        }),
{
    if tk.len() == 0 {
        let mut v: Vec<char> = Vec::new();
        v.push(open_char);
        let mut out: Vec<Vec<char>> = Vec::new();
        proof {
            assert(v@ =~= seq![open_char]);
        }
        out.push(v);
        proof {
            assert(name_views(out@) =~= seq![seq![open_char]]);
        }
        Ok(out)
    } else {
        Err(CallError::NoCompletions)
    }
}

/// Argument completion for a resolved export, mirroring
/// [`sp_complete_arg`].
pub fn complete_arg(sig: &FunctionSignature, partial: &[char]) -> (r: Result<
    Vec<Vec<char>>,
    CallError,
>)
    ensures
        ({
            match (r, sp_complete_arg(param_models(sig.params@), partial@)) {
                (Ok(cs), Ok(sc)) => name_views(cs@) == sc,
                (Err(e), Err(em)) => e.model() == em,
                _ => false,
            }
        }),
{
    proof {
        assert(partial@.skip(0) =~= partial@);
    }
    match scan_cursor(partial, 0, 0, 0, Vec::new()) {
        Err(e) => Err(e),
        Ok((cnt, cur)) => {
            if !(cnt < sig.params.len()) {
                return Err(CallError::NoCompletions);
            }
            let w = crate::text::scan_ws(&cur, 0);
            proof {
                assert(cur@.skip(0) =~= cur@);
            }
            let tk = crate::codec::copy_range(&cur, w, cur.len());
            proof {
                assert(tk@ =~= cur@.skip(w as int));
                assert(param_models(sig.params@)[cnt as int].1 == sig.params@[cnt as int].1.model());
            }
            type_cands_x(&sig.params[cnt].1, &tk)
        },
    }
}


} // verus!
