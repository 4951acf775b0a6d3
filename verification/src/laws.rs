//! The laws of the codec, chief among them the round trip: parsing the
//! canonical text of a well-typed value yields the value back.
use crate::codec::{
    case_names, field_names, find_name, fm_elems, fm_fields, fm_names, fm_value,
    first_unfilled, kw_err, kw_false, kw_none, kw_ok, kw_some, kw_true, select_names, slot_val,
    sp_complete, sp_elems, sp_fields, sp_flags, sp_payload, sp_sint, sp_tuple, sp_value, starts,
};
use crate::error::ErrModel;
use crate::text::{
    digits_count, dval, esc_body, esc_char, fmt_int, fmt_u64, is_digit, is_ws,
    lemma_body_round, lemma_counts_bounded, lemma_digits_count_exact, lemma_fmt_u64_digits,
    lemma_fmt_u64_dval, lemma_name_count_exact, name_count, sp_body, ws_count,
};
use crate::value::{
    codable, has_type, is_name_char, is_name_start, is_ordered_selection, wf_name, wf_names,
    wf_type, TypeModel, ValModel,
};
use vstd::prelude::*;

verus! {

broadcast use vstd::seq::group_seq_axioms, vstd::seq_lib::group_seq_lib_default;

/// What may legally follow a complete literal inside a larger one: nothing,
/// or a separator or closer.
pub open spec fn at_boundary(rest: Seq<char>) -> bool {
    rest.len() == 0 || rest[0] == ',' || rest[0] == ')' || rest[0] == ']' || rest[0] == '}'
}

/// Splitting a concatenation at the seam gives back the parts.
proof fn lemma_parts(a: Seq<char>, b: Seq<char>)
    ensures
        (a + b).take(a.len() as int) =~= a,
        (a + b).skip(a.len() as int) =~= b,
        a.len() + b.len() == (a + b).len(),
{
}

/// `find_name` finds the first occurrence, or reports absence.
proof fn lemma_find_name_spec(ns: Seq<Seq<char>>, n: Seq<char>)
    ensures
        -1 <= find_name(ns, n) < ns.len(),
        find_name(ns, n) >= 0 ==> ns[find_name(ns, n)] == n,
        find_name(ns, n) == -1 ==> forall|k: int| 0 <= k < ns.len() ==> ns[k] != n,
    decreases ns.len(),
{
    if ns.len() > 0 && ns[0] != n {
        lemma_find_name_spec(ns.drop_first(), n);
        let r = find_name(ns.drop_first(), n);
        if r >= 0 {
            assert(ns[1 + r] == ns.drop_first()[r]);
        } else {
            assert forall|k: int| 0 <= k < ns.len() implies ns[k] != n by {
                if k > 0 {
                    assert(ns[k] == ns.drop_first()[k - 1]);
                }
            }
        }
    }
}

/// In a duplicate-free name list, a declared name is found at its own
/// index.
proof fn lemma_find_name_at(ns: Seq<Seq<char>>, i: int)
    requires
        0 <= i < ns.len(),
        forall|a: int, b: int| 0 <= a < b < ns.len() ==> ns[a] != ns[b],
    ensures
        find_name(ns, ns[i]) == i,
{
    lemma_find_name_spec(ns, ns[i]);
    let r = find_name(ns, ns[i]);
    if r == -1 {
        assert(ns[i] == ns[i]);
        assert(false);
    }
}

/// The slot assignment after the first `i` fields of `vfs` have been
/// parsed: those slots filled, the rest empty.
pub open spec fn slots_of(vfs: Seq<(Seq<char>, ValModel)>, i: int) -> Seq<Option<ValModel>> {
    Seq::new(vfs.len(), |k: int| if k < i { Some(vfs[k].1) } else { None })
}

/// When every slot is filled, none is reported unfilled.
proof fn lemma_all_filled(slots: Seq<Option<ValModel>>, i: int)
    requires
        0 <= i <= slots.len(),
        forall|k: int| 0 <= k < slots.len() ==> (#[trigger] slots[k]) is Some,
    ensures
        first_unfilled(slots, i) == -1,
    decreases slots.len() - i,
{
    if i < slots.len() {
        lemma_all_filled(slots, i + 1);
    }
}

/// Selecting by a sorted index sequence reproduces the selected names.
proof fn lemma_select_names(ns: Seq<Seq<char>>, ix: Seq<int>, i: int, p: int)
    requires
        forall|k: int| 0 <= k < ix.len() ==> 0 <= #[trigger] ix[k] < ns.len(),
        forall|a: int, b: int| 0 <= a < b < ix.len() ==> ix[a] < ix[b],
        0 <= p <= ix.len(),
        0 <= i <= ns.len(),
        forall|k: int| 0 <= k < p ==> #[trigger] ix[k] < i,
        forall|k: int| p <= k < ix.len() ==> #[trigger] ix[k] >= i,
    ensures
        select_names(ns, ix, i) =~= Seq::new((ix.len() - p) as nat, |k: int| ns[ix[p + k]]),
    decreases ns.len() - i,
{
    if i >= ns.len() {
        if p < ix.len() {
            assert(ix[p] >= i);
            assert(ix[p] < ns.len());
        }
        assert(p == ix.len());
        assert(select_names(ns, ix, i) =~= Seq::new((ix.len() - p) as nat, |k: int| ns[ix[p + k]]));
    } else {
        if ix.contains(i) {
            let w = choose|w: int| 0 <= w < ix.len() && ix[w] == i;
            assert(w >= p);
            assert(ix[p] <= ix[w] || p == w);
            assert(ix[p] == i) by {
                if p < w {
                    assert(ix[p] < ix[w]);
                    assert(ix[p] >= i);
                }
            }
            lemma_select_names(ns, ix, i + 1, p + 1);
            let lhs = select_names(ns, ix, i);
            let rhs = Seq::new((ix.len() - p) as nat, |k: int| ns[ix[p + k]]);
            assert(lhs =~= seq![ns[i]] + select_names(ns, ix, i + 1));
            assert forall|k: int| 0 <= k < rhs.len() implies lhs[k] == rhs[k] by {
                if k > 0 {
                    assert(select_names(ns, ix, i + 1) =~= Seq::new(
                        (ix.len() - p - 1) as nat,
                        |k2: int| ns[ix[p + 1 + k2]],
                    ));
                }
            }
            assert(lhs =~= rhs);
        } else {
            assert(forall|k: int| p <= k < ix.len() ==> #[trigger] ix[k] >= i + 1) by {
                assert forall|k: int| p <= k < ix.len() implies #[trigger] ix[k] >= i + 1 by {
                    if ix[k] == i {
                        assert(ix.contains(i));
                    }
                }
            }
            lemma_select_names(ns, ix, i + 1, p);
        }
    }
}

/// The canonical text of a well-typed value is nonempty and starts with a
/// character that is neither whitespace nor a separator or closer.
proof fn lemma_fm_first(v: ValModel, t: TypeModel)
    requires
        has_type(v, t),
        wf_type(t),
        codable(t),
    ensures
        fm_value(v).len() >= 1,
        !is_ws(fm_value(v)[0]),
        fm_value(v)[0] != ',',
        fm_value(v)[0] != ']',
        fm_value(v)[0] != ')',
        fm_value(v)[0] != '}',
        fm_value(v)[0] != ':',
{
    match v {
        ValModel::S8(x) => lemma_int_first(x as int),
        ValModel::S16(x) => lemma_int_first(x as int),
        ValModel::S32(x) => lemma_int_first(x as int),
        ValModel::S64(x) => lemma_int_first(x as int),
        ValModel::U8(x) => lemma_int_first(x as int),
        ValModel::U16(x) => lemma_int_first(x as int),
        ValModel::U32(x) => lemma_int_first(x as int),
        ValModel::U64(x) => lemma_int_first(x as int),
        ValModel::Variant(n, p) => {
            let cs = t->Variant_0;
            let j = choose|j: int|
                0 <= j < cs.len() && (#[trigger] cs[j]).0 == n && p.len() == cs[j].1.len() && (
                p.len() == 1 ==> cs[j].1.len() == 1 && has_type(p[0], cs[j].1[0]));
            assert(wf_name(Seq::new(cs.len(), |i: int| cs[i].0)[j]));
            assert(is_name_start(n[0]));
            if p.len() == 1 {
                assert(fm_value(v)[0] == n[0]);
            }
        },
        ValModel::Enum(n) => {
            let ns = t->Enum_0;
            let j = choose|j: int| 0 <= j < ns.len() && #[trigger] ns[j] == n;
            assert(wf_name(ns[j]));
            assert(is_name_start(n[0]));
        },
        ValModel::Handle(_) => {
            assert(false);
        },
        _ => {},
    }
}

/// The canonical decimal text starts with a minus sign or a digit.
proof fn lemma_int_first(x: int)
    ensures
        fmt_int(x).len() >= 1,
        !is_ws(fmt_int(x)[0]),
        fmt_int(x)[0] != ',',
        fmt_int(x)[0] != ']',
        fmt_int(x)[0] != ')',
        fmt_int(x)[0] != '}',
        fmt_int(x)[0] != ':',
        fmt_int(x)[0] != '(',
{
    if x < 0 {
        lemma_fmt_u64_digits(-x);
        assert(fmt_int(x)[0] == '-');
    } else {
        lemma_fmt_u64_digits(x);
        assert(fmt_int(x) == fmt_u64(x));
        assert(is_digit(fmt_int(x)[0]));
    }
}

/// Round trip of a decimal literal with a boundary behind it.
proof fn lemma_round_int(xv: int, min: int, max: int, rest: Seq<char>)
    requires
        min <= xv <= max,
        min <= 0 <= max,
        at_boundary(rest),
    ensures
        sp_sint(fmt_int(xv) + rest, min, max) == Ok::<(int, int), ErrModel>(
            (xv, fmt_int(xv).len() as int),
        ),
{
    let input = fmt_int(xv) + rest;
    if xv < 0 {
        let mag = -xv;
        lemma_fmt_u64_digits(mag);
        lemma_fmt_u64_dval(mag);
        assert(fmt_int(xv) =~= seq!['-'] + fmt_u64(mag));
        assert(input =~= seq!['-'] + (fmt_u64(mag) + rest));
        assert(input[0] == '-');
        assert(input.skip(1) =~= fmt_u64(mag) + rest);
        lemma_digits_count_exact(fmt_u64(mag), rest);
        let n = digits_count(input.skip(1));
        assert(n == fmt_u64(mag).len());
        lemma_parts(fmt_u64(mag), rest);
        assert(input.skip(1).take(n) =~= fmt_u64(mag));
        assert(dval(input.skip(1).take(n)) == mag);
    } else {
        lemma_fmt_u64_digits(xv);
        lemma_fmt_u64_dval(xv);
        assert(fmt_int(xv) == fmt_u64(xv));
        assert(input[0] == fmt_u64(xv)[0]);
        assert(is_digit(input[0]));
        assert(input[0] != '-');
        lemma_digits_count_exact(fmt_u64(xv), rest);
        assert(input =~= fmt_u64(xv) + rest);
        let n = digits_count(input);
        assert(n == fmt_u64(xv).len());
        lemma_parts(fmt_u64(xv), rest);
        assert(input.take(n) =~= fmt_u64(xv));
        assert(dval(input.take(n)) == xv);
    }
}

/// Round trip of one value: parsing its canonical text, with any boundary
/// continuation appended, returns the value and consumes exactly the text.
#[verifier::rlimit(100)]
pub proof fn lemma_round_value(v: ValModel, t: TypeModel, rest: Seq<char>)
    requires
        has_type(v, t),
        wf_type(t),
        codable(t),
        at_boundary(rest),
    ensures
        sp_value(fm_value(v) + rest, t) == Ok::<(ValModel, int), ErrModel>(
            (v, fm_value(v).len() as int),
        ),
    decreases v, 2int, 0int,
{
    let fm = fm_value(v);
    let input = fm + rest;
    match v {
        ValModel::Bool(b) => {
            if b {
                lemma_parts(kw_true(), rest);
                assert(input.take(4) =~= kw_true());
                assert(starts(input, kw_true()));
            } else {
                lemma_parts(kw_false(), rest);
                assert(input.take(5) =~= kw_false());
                assert(starts(input, kw_false()));
                assert(!starts(input, kw_true())) by {
                    if starts(input, kw_true()) {
                        assert(input.take(4)[0] == input[0]);
                        assert(input[0] == 'f');
                        assert(kw_true()[0] == 't');
                    }
                }
            }
        },
        ValModel::S8(x) => lemma_round_int(x as int, -128, 127, rest),
        ValModel::S16(x) => lemma_round_int(x as int, -32768, 32767, rest),
        ValModel::S32(x) => lemma_round_int(x as int, -2147483648, 2147483647, rest),
        ValModel::S64(x) => lemma_round_int(
            x as int,
            -9223372036854775808,
            9223372036854775807,
            rest,
        ),
        ValModel::U8(x) => lemma_round_int(x as int, 0, 255, rest),
        ValModel::U16(x) => lemma_round_int(x as int, 0, 65535, rest),
        ValModel::U32(x) => lemma_round_int(x as int, 0, 4294967295, rest),
        ValModel::U64(x) => lemma_round_int(x as int, 0, 18446744073709551615, rest),
        ValModel::Char(c) => {
            assert(seq![c].drop_first() =~= Seq::<char>::empty());
            assert(seq![c][0] == c);
            assert(esc_body(Seq::<char>::empty(), '\'') =~= Seq::<char>::empty());
            assert(esc_body(seq![c], '\'') =~= esc_char(c, '\''));
            assert(fm =~= seq!['\''] + esc_body(seq![c], '\'') + seq!['\'']);
            assert(input[0] == '\'');
            assert(input.skip(1) =~= esc_body(seq![c], '\'') + seq!['\''] + rest);
            lemma_body_round(seq![c], '\'', rest);
            let k = esc_body(seq![c], '\'').len() as int;
            assert(sp_body(input.skip(1), '\'') == Ok::<(Seq<char>, int), ErrModel>((seq![c], k)));
            assert(seq![c][0] == c);
            assert(fm.len() == 1 + k + 1);
        },
        ValModel::Text(s) => {
            assert(fm =~= seq!['"'] + esc_body(s, '"') + seq!['"']);
            assert(input[0] == '"');
            assert(input.skip(1) =~= esc_body(s, '"') + seq!['"'] + rest);
            lemma_body_round(s, '"', rest);
            let k = esc_body(s, '"').len() as int;
            assert(sp_body(input.skip(1), '"') == Ok::<(Seq<char>, int), ErrModel>((s, k)));
            assert(fm.len() == 1 + k + 1);
        },
        ValModel::List(vs) => {
            let es = t->List_0;
            assert(fm =~= seq!['['] + fm_elems(vs, 0) + seq![']']);
            assert(input[0] == '[');
            assert(input.skip(1) =~= fm_elems(vs, 0) + seq![']'] + rest);
            lemma_round_elems(vs, es[0], rest, 0);
            assert(vs.skip(0) =~= vs);
            assert(fm.len() == 1 + (fm_elems(vs, 0).len() + 1));
        },
        ValModel::Record(..) => {
            lemma_round_record_arm(v, t, rest);
        },
        ValModel::Tuple(vs) => {
            let ts = t->Tuple_0;
            assert(fm =~= seq!['('] + fm_elems(vs, 0) + seq![')']);
            assert(input[0] == '(');
            assert(input.skip(1) =~= fm_elems(vs, 0) + seq![')'] + rest);
            lemma_round_tuple(vs, ts, rest, 0);
            assert(vs.skip(0) =~= vs);
            assert(fm.len() == 1 + (fm_elems(vs, 0).len() + 1));
        },
        ValModel::Variant(..) => {
            lemma_round_variant_arm(v, t, rest);
        },
        ValModel::Enum(n) => {
            let ns = t->Enum_0;
            let j = choose|j: int| 0 <= j < ns.len() && #[trigger] ns[j] == n;
            assert(wf_name(ns[j]));
            assert(fm =~= n);
            assert(input =~= n + rest);
            lemma_name_count_exact(n, rest);
            lemma_parts(n, rest);
            assert(input.take(n.len() as int) =~= n);
            lemma_find_name_spec(ns, n);
            if find_name(ns, n) == -1 {
                assert(ns[j] != n);
                assert(false);
            }
        },
        ValModel::Optional(..) => {
            lemma_round_optional_arm(v, t, rest);
        },
        ValModel::Expected(..) => {
            lemma_round_expected_arm(v, t, rest);
        },
        ValModel::Flags(..) => {
            lemma_round_flags_arm(v, t, rest);
        },
        ValModel::Handle(_) => {
            assert(false);
        },
    }
}


/// Round trip of a record literal.
#[verifier::rlimit(100)]
proof fn lemma_round_record_arm(v: ValModel, t: TypeModel, rest: Seq<char>)
    requires
        v is Record,
        has_type(v, t),
        wf_type(t),
        codable(t),
        at_boundary(rest),
    ensures
        sp_value(fm_value(v) + rest, t) == Ok::<(ValModel, int), ErrModel>(
            (v, fm_value(v).len() as int),
        ),
    decreases v, 1int, 0int,
{
    let fm = fm_value(v);
    let input = fm + rest;
    let vfs = v->Record_0;
        let tfs = t->Record_0;
        assert(fm =~= seq!['{'] + fm_fields(vfs, 0) + seq!['}']);
        assert(input[0] == '{');
        assert(input.skip(1) =~= fm_fields(vfs, 0) + seq!['}'] + rest);
        assert(slots_of(vfs, 0) =~= Seq::new(tfs.len(), |i: int| None::<ValModel>));
        lemma_round_fields(vfs, tfs, rest, 0);
        let full = slots_of(vfs, vfs.len() as int);
        assert forall|k: int| 0 <= k < full.len() implies (#[trigger] full[k]) is Some by {}
        assert(forall|k: int| 0 <= k < full.len() ==> (#[trigger] full[k]) is Some);
        lemma_all_filled(full, 0);
        let built = Seq::new(tfs.len(), |i: int| (tfs[i].0, slot_val(full[i])));
        assert forall|i: int| 0 <= i < tfs.len() implies built[i] == vfs[i] by {
            assert(full[i] == Some(vfs[i].1));
        }
        assert(built =~= vfs);
        assert(fm.len() == 1 + (fm_fields(vfs, 0).len() + 1));
    
}

/// Round trip of a variant literal.
#[verifier::rlimit(100)]
proof fn lemma_round_variant_arm(v: ValModel, t: TypeModel, rest: Seq<char>)
    requires
        v is Variant,
        has_type(v, t),
        wf_type(t),
        codable(t),
        at_boundary(rest),
    ensures
        sp_value(fm_value(v) + rest, t) == Ok::<(ValModel, int), ErrModel>(
            (v, fm_value(v).len() as int),
        ),
    decreases v, 1int, 0int,
{
    let fm = fm_value(v);
    let input = fm + rest;
    let n = v->Variant_0;
    let p = v->Variant_1;
        let cs = t->Variant_0;
        let j = choose|j: int|
            0 <= j < cs.len() && (#[trigger] cs[j]).0 == n && p.len() == cs[j].1.len() && (
            p.len() == 1 ==> cs[j].1.len() == 1 && has_type(p[0], cs[j].1[0]));
        assert(wf_name(case_names(cs)[j]));
        assert(case_names(cs)[j] == n);
        if p.len() == 1 {
            assert(fm =~= n + (seq!['('] + fm_value(p[0]) + seq![')']));
            let tail = seq!['('] + fm_value(p[0]) + seq![')'] + rest;
            assert(input =~= n + tail);
            assert(tail[0] == '(');
            assert(!is_name_char('('));
            lemma_name_count_exact(n, tail);
            assert(name_count(input) == n.len());
            lemma_parts(n, tail);
            assert(input.take(n.len() as int) =~= n);
            assert(input.skip(n.len() as int) =~= tail);
            assert forall|a: int, b: int|
                0 <= a < b < case_names(cs).len() implies case_names(cs)[a] != case_names(
                cs,
            )[b] by {}
            lemma_find_name_at(case_names(cs), j);
            assert(find_name(case_names(cs), n) == j);
            lemma_round_payload(p[0], cs[j].1[0], rest);
            assert(p =~= seq![p[0]]);
            assert(fm.len() == n.len() + (fm_value(p[0]).len() + 2));
        } else {
            assert(p.len() == 0);
            assert(fm =~= n);
            assert(input =~= n + rest);
            lemma_name_count_exact(n, rest);
            assert(name_count(input) == n.len());
            lemma_parts(n, rest);
            assert(input.take(n.len() as int) =~= n);
            lemma_find_name_at(case_names(cs), j);
            if (n.len() as int) < input.len() {
                assert(input[n.len() as int] == rest[0]);
                assert(rest[0] != '(');
            }
            assert(p =~= Seq::<ValModel>::empty());
        }
    
}

/// Round trip of a optional literal.
#[verifier::rlimit(100)]
proof fn lemma_round_optional_arm(v: ValModel, t: TypeModel, rest: Seq<char>)
    requires
        v is Optional,
        has_type(v, t),
        wf_type(t),
        codable(t),
        at_boundary(rest),
    ensures
        sp_value(fm_value(v) + rest, t) == Ok::<(ValModel, int), ErrModel>(
            (v, fm_value(v).len() as int),
        ),
    decreases v, 1int, 0int,
{
    let fm = fm_value(v);
    let input = fm + rest;
    let p = v->Optional_0;
        let es = t->Optional_0;
        if p.len() == 0 {
            assert(fm =~= kw_none());
            assert(input =~= kw_none() + rest);
            assert(forall|i: int| 0 <= i < kw_none().len() ==> is_name_char(kw_none()[i]));
            lemma_name_count_exact(kw_none(), rest);
            assert(name_count(input) == 4);
            lemma_parts(kw_none(), rest);
            assert(input.take(4) =~= kw_none());
            assert(p =~= Seq::<ValModel>::empty());
        } else {
            assert(p.len() == 1);
            let tail = seq!['('] + fm_value(p[0]) + seq![')'] + rest;
            assert(fm =~= kw_some() + (seq!['('] + fm_value(p[0]) + seq![')']));
            assert(input =~= kw_some() + tail);
            assert(forall|i: int| 0 <= i < kw_some().len() ==> is_name_char(kw_some()[i]));
            assert(tail[0] == '(');
            assert(!is_name_char('('));
            lemma_name_count_exact(kw_some(), tail);
            assert(name_count(input) == 4);
            lemma_parts(kw_some(), tail);
            assert(input.take(4) =~= kw_some());
            assert(input.skip(4) =~= tail);
            assert(input.take(4) != kw_none()) by {
                assert(input.take(4)[0] == 's');
                assert(kw_none()[0] == 'n');
            }
            lemma_round_payload(p[0], es[0], rest);
            assert(p =~= seq![p[0]]);
            assert(fm.len() == 4 + (fm_value(p[0]).len() + 2));
        }
    
}

/// Round trip of a expected literal.
#[verifier::rlimit(100)]
proof fn lemma_round_expected_arm(v: ValModel, t: TypeModel, rest: Seq<char>)
    requires
        v is Expected,
        has_type(v, t),
        wf_type(t),
        codable(t),
        at_boundary(rest),
    ensures
        sp_value(fm_value(v) + rest, t) == Ok::<(ValModel, int), ErrModel>(
            (v, fm_value(v).len() as int),
        ),
    decreases v, 1int, 0int,
{
    let fm = fm_value(v);
    let input = fm + rest;
    let ok = v->Expected_0;
    let p = v->Expected_1;
        let os = t->Expected_0;
        let es = t->Expected_1;
        if ok {
            if p.len() == 1 {
                let tail = seq!['('] + fm_value(p[0]) + seq![')'] + rest;
                assert(fm =~= kw_ok() + (seq!['('] + fm_value(p[0]) + seq![')']));
                assert(input =~= kw_ok() + tail);
                assert(forall|i: int| 0 <= i < kw_ok().len() ==> is_name_char(kw_ok()[i]));
                assert(tail[0] == '(');
                lemma_name_count_exact(kw_ok(), tail);
                assert(name_count(input) == 2);
                lemma_parts(kw_ok(), tail);
                assert(input.take(2) =~= kw_ok());
                assert(input.skip(2) =~= tail);
                lemma_round_payload(p[0], os[0], rest);
                assert(p =~= seq![p[0]]);
                assert(fm.len() == 2 + (fm_value(p[0]).len() + 2));
            } else {
                assert(fm =~= kw_ok());
                assert(input =~= kw_ok() + rest);
                assert(forall|i: int| 0 <= i < kw_ok().len() ==> is_name_char(kw_ok()[i]));
                lemma_name_count_exact(kw_ok(), rest);
                assert(name_count(input) == 2);
                lemma_parts(kw_ok(), rest);
                assert(input.take(2) =~= kw_ok());
                if 2 < input.len() {
                    assert(input[2] == rest[0]);
                }
                assert(p =~= Seq::<ValModel>::empty());
            }
        } else {
            if p.len() == 1 {
                let tail = seq!['('] + fm_value(p[0]) + seq![')'] + rest;
                assert(fm =~= kw_err() + (seq!['('] + fm_value(p[0]) + seq![')']));
                assert(input =~= kw_err() + tail);
                assert(forall|i: int| 0 <= i < kw_err().len() ==> is_name_char(kw_err()[i]));
                assert(tail[0] == '(');
                lemma_name_count_exact(kw_err(), tail);
                assert(name_count(input) == 3);
                lemma_parts(kw_err(), tail);
                assert(input.take(3) =~= kw_err());
                assert(input.skip(3) =~= tail);
                assert(input.take(3).len() != kw_ok().len());
                lemma_round_payload(p[0], es[0], rest);
                assert(p =~= seq![p[0]]);
                assert(fm.len() == 3 + (fm_value(p[0]).len() + 2));
            } else {
                assert(fm =~= kw_err());
                assert(input =~= kw_err() + rest);
                assert(forall|i: int| 0 <= i < kw_err().len() ==> is_name_char(kw_err()[i]));
                lemma_name_count_exact(kw_err(), rest);
                assert(name_count(input) == 3);
                lemma_parts(kw_err(), rest);
                assert(input.take(3) =~= kw_err());
                if 3 < input.len() {
                    assert(input[3] == rest[0]);
                }
                assert(p =~= Seq::<ValModel>::empty());
            }
        }
    
}

/// Round trip of a flags literal.
#[verifier::rlimit(100)]
proof fn lemma_round_flags_arm(v: ValModel, t: TypeModel, rest: Seq<char>)
    requires
        v is Flags,
        has_type(v, t),
        wf_type(t),
        codable(t),
        at_boundary(rest),
    ensures
        sp_value(fm_value(v) + rest, t) == Ok::<(ValModel, int), ErrModel>(
            (v, fm_value(v).len() as int),
        ),
    decreases v, 1int, 0int,
{
    let fm = fm_value(v);
    let input = fm + rest;
    let set = v->Flags_0;
        let ns = t->Flags_0;
        let ix = choose|ix: Seq<int>|
            {
                &&& ix.len() == set.len()
                &&& forall|i: int| 0 <= i < ix.len() ==> 0 <= #[trigger] ix[i] < ns.len()
                &&& forall|i: int, j: int| 0 <= i < j < ix.len() ==> ix[i] < ix[j]
                &&& forall|i: int| 0 <= i < ix.len() ==> #[trigger] set[i] == ns[ix[i]]
            };
        assert(fm =~= seq!['{'] + fm_names(set, 0) + seq!['}']);
        assert(input[0] == '{');
        assert(input.skip(1) =~= fm_names(set, 0) + seq!['}'] + rest);
        assert(ix.take(0) =~= Seq::<int>::empty());
        lemma_round_flag_names(ns, set, ix, rest, 0);
        lemma_select_names(ns, ix, 0, 0);
        assert(select_names(ns, ix, 0) =~= Seq::new(ix.len(), |k: int| ns[ix[k]]));
        assert(select_names(ns, ix, 0) =~= set);
        assert(fm.len() == 1 + (fm_names(set, 0).len() + 1));
    
}

/// Round trip of a parenthesized payload.
#[verifier::rlimit(100)]
proof fn lemma_round_payload(p: ValModel, t: TypeModel, rest: Seq<char>)
    requires
        has_type(p, t),
        wf_type(t),
        codable(t),
    ensures
        sp_payload(seq!['('] + fm_value(p) + seq![')'] + rest, t) == Ok::<
            (ValModel, int),
            ErrModel,
        >((p, fm_value(p).len() as int + 2)),
    decreases p, 3int, 0int,
{
    let fm = fm_value(p);
    let input = seq!['('] + fm_value(p) + seq![')'] + rest;
    assert(input[0] == '(');
    assert(ws_count(input) == 0);
    assert(input.skip(1) =~= fm + (seq![')'] + rest));
    lemma_fm_first(p, t);
    assert(ws_count(input.skip(1)) == 0);
    lemma_round_value(p, t, seq![')'] + rest);
    assert(fm + (seq![')'] + rest) =~= fm + seq![')'] + rest);
    lemma_parts(fm, seq![')'] + rest);
    assert(input.skip(1).skip(fm.len() as int) =~= seq![')'] + rest);
    assert(input.skip(1 + fm.len() as int) =~= seq![')'] + rest);
    assert(ws_count(seq![')'] + rest) == 0) by {
        assert((seq![')'] + rest)[0] == ')');
    }
    assert(input[fm.len() as int + 1] == ')');
}


/// A canonical value followed by a delimiter: the parser consumes exactly
/// the value's text and stops at the delimiter.
#[verifier::rlimit(100)]
proof fn lemma_value_then(v: ValModel, t: TypeModel, d: char, rest2: Seq<char>)
    requires
        has_type(v, t),
        wf_type(t),
        codable(t),
        d == ',' || d == ']' || d == ')' || d == '}',
    ensures
        ({
            let fv = fm_value(v);
            let inp = fv + seq![d] + rest2;
            &&& fv.len() >= 1
            &&& inp.len() == fv.len() + 1 + rest2.len()
            &&& ws_count(inp) == 0
            &&& inp[0] == fv[0]
            &&& !is_ws(fv[0])
            &&& fv[0] != ','
            &&& fv[0] != ']'
            &&& fv[0] != ')'
            &&& fv[0] != '}'
            &&& inp.skip(0) =~= inp
            &&& sp_value(inp, t) == Ok::<(ValModel, int), ErrModel>((v, fv.len() as int))
            &&& ws_count(inp.skip(fv.len() as int)) == 0
            &&& inp[fv.len() as int] == d
            &&& inp.skip(fv.len() as int + 1) =~= rest2
        }),
    decreases v, 4int, 0int,
{
    let fv = fm_value(v);
    let inp = fv + seq![d] + rest2;
    lemma_fm_first(v, t);
    let tail = seq![d] + rest2;
    assert(inp =~= fv + tail);
    assert(tail[0] == d);
    assert(at_boundary(tail));
    lemma_round_value(v, t, tail);
    lemma_parts(fv, tail);
    assert(inp.skip(fv.len() as int) =~= tail);
    assert(ws_count(tail) == 0);
    assert(inp[fv.len() as int] == tail[0]);
    assert(tail.skip(1) =~= rest2);
    assert(inp.skip(fv.len() as int + 1) =~= rest2);
    assert(inp.skip(0) =~= inp);
}

/// Round trip of the element list of a list literal, from element `i` on.
#[verifier::rlimit(100)]
proof fn lemma_round_elems(vs: Seq<ValModel>, te: TypeModel, rest: Seq<char>, i: int)
    requires
        forall|k: int| 0 <= k < vs.len() ==> has_type(#[trigger] vs[k], te),
        wf_type(te),
        codable(te),
        0 <= i <= vs.len(),
    ensures
        sp_elems(fm_elems(vs, i) + seq![']'] + rest, te, ']') == Ok::<
            (Seq<ValModel>, int),
            ErrModel,
        >((vs.skip(i), fm_elems(vs, i).len() as int + 1)),
    decreases vs, 3int, vs.len() - i,
{
    let fm = fm_elems(vs, i);
    let input = fm + seq![']'] + rest;
    if i == vs.len() {
        assert(fm =~= Seq::<char>::empty());
        assert(input =~= seq![']'] + rest);
        assert(input[0] == ']');
        assert(ws_count(input) == 0);
        assert(vs.skip(i) =~= Seq::<ValModel>::empty());
    } else if i == vs.len() - 1 {
        let fv = fm_value(vs[i]);
        assert(fm =~= fv);
        lemma_value_then(vs[i], te, ']', rest);
        assert(input =~= fv + seq![']'] + rest);
        assert(vs.skip(i) =~= seq![vs[i]]);
    } else {
        let fv = fm_value(vs[i]);
        let nxt = fm_elems(vs, i + 1) + seq![']'] + rest;
        assert(fm =~= fv + seq![','] + fm_elems(vs, i + 1));
        lemma_value_then(vs[i], te, ',', nxt);
        assert(input =~= fv + seq![','] + nxt);
        lemma_round_elems(vs, te, rest, i + 1);
        assert(seq![vs[i]] + vs.skip(i + 1) =~= vs.skip(i));
        assert(fm.len() == fv.len() + 1 + fm_elems(vs, i + 1).len());
    }
}

/// Round trip of the component list of a tuple literal, from component
/// `i` on.
#[verifier::rlimit(100)]
proof fn lemma_round_tuple(vs: Seq<ValModel>, ts: Seq<TypeModel>, rest: Seq<char>, i: int)
    requires
        vs.len() == ts.len(),
        forall|k: int| 0 <= k < vs.len() ==> has_type(#[trigger] vs[k], ts[k]),
        forall|k: int| 0 <= k < ts.len() ==> wf_type(#[trigger] ts[k]),
        forall|k: int| 0 <= k < ts.len() ==> codable(#[trigger] ts[k]),
        0 <= i <= vs.len(),
    ensures
        sp_tuple(fm_elems(vs, i) + seq![')'] + rest, ts, i) == Ok::<
            (Seq<ValModel>, int),
            ErrModel,
        >((vs.skip(i), fm_elems(vs, i).len() as int + 1)),
    decreases vs, 3int, vs.len() - i,
{
    let fm = fm_elems(vs, i);
    let input = fm + seq![')'] + rest;
    if i == vs.len() {
        assert(fm =~= Seq::<char>::empty());
        assert(input =~= seq![')'] + rest);
        assert(input[0] == ')');
        assert(ws_count(input) == 0);
        assert(vs.skip(i) =~= Seq::<ValModel>::empty());
    } else if i == vs.len() - 1 {
        let fv = fm_value(vs[i]);
        assert(fm =~= fv);
        lemma_value_then(vs[i], ts[i], ')', rest);
        assert(input =~= fv + seq![')'] + rest);
        assert(vs.skip(i) =~= seq![vs[i]]);
    } else {
        let fv = fm_value(vs[i]);
        let nxt = fm_elems(vs, i + 1) + seq![')'] + rest;
        assert(fm =~= fv + seq![','] + fm_elems(vs, i + 1));
        lemma_value_then(vs[i], ts[i], ',', nxt);
        assert(input =~= fv + seq![','] + nxt);
        lemma_round_tuple(vs, ts, rest, i + 1);
        assert(seq![vs[i]] + vs.skip(i + 1) =~= vs.skip(i));
        assert(fm.len() == fv.len() + 1 + fm_elems(vs, i + 1).len());
    }
}


/// A well-formed name followed by a non-name character: the scanner reads
/// exactly the name.
proof fn lemma_name_then(nm: Seq<char>, tail: Seq<char>)
    requires
        wf_name(nm),
        tail.len() > 0,
        !is_name_char(tail[0]),
        !is_ws(tail[0]),
    ensures
        ({
            let input = nm + tail;
            &&& input.len() == nm.len() + tail.len()
            &&& ws_count(input) == 0
            &&& input[0] == nm[0]
            &&& is_name_start(nm[0])
            &&& input.skip(0) =~= input
            &&& name_count(input) == nm.len()
            &&& input.take(nm.len() as int) =~= nm
            &&& input.skip(nm.len() as int) =~= tail
            &&& ws_count(tail) == 0
            &&& input[nm.len() as int] == tail[0]
        }),
{
    let input = nm + tail;
    lemma_name_count_exact(nm, tail);
    lemma_parts(nm, tail);
    assert(input[0] == nm[0]);
    assert(!is_ws(nm[0]));
    assert(input.skip(0) =~= input);
}

/// Round trip of the field list of a record literal, from field `i` on.
#[verifier::rlimit(100)]
proof fn lemma_round_fields(
    vfs: Seq<(Seq<char>, ValModel)>,
    tfs: Seq<(Seq<char>, TypeModel)>,
    rest: Seq<char>,
    i: int,
)
    requires
        vfs.len() == tfs.len(),
        forall|k: int|
            0 <= k < vfs.len() ==> (#[trigger] vfs[k]).0 == tfs[k].0 && has_type(
                vfs[k].1,
                tfs[k].1,
            ),
        wf_names(field_names(tfs)),
        forall|k: int| 0 <= k < tfs.len() ==> wf_type((#[trigger] tfs[k]).1),
        forall|k: int| 0 <= k < tfs.len() ==> codable((#[trigger] tfs[k]).1),
        0 <= i <= vfs.len(),
    ensures
        sp_fields(fm_fields(vfs, i) + seq!['}'] + rest, tfs, slots_of(vfs, i)) == Ok::<
            (Seq<Option<ValModel>>, int),
            ErrModel,
        >((slots_of(vfs, vfs.len() as int), fm_fields(vfs, i).len() as int + 1)),
    decreases vfs, 3int, 4 * (vfs.len() - i) + 3,
{
    let fm = fm_fields(vfs, i);
    let input = fm + seq!['}'] + rest;
    let slots = slots_of(vfs, i);
    if i == vfs.len() {
        assert(fm =~= Seq::<char>::empty());
        assert(input =~= seq!['}'] + rest);
        assert(input[0] == '}');
        assert(ws_count(input) == 0);
        assert(slots =~= slots_of(vfs, vfs.len() as int));
    } else {
        lemma_round_fields_step(vfs, tfs, rest, i);
    }
}

/// One field of a record literal, followed by the remaining fields.
proof fn lemma_round_fields_step(
    vfs: Seq<(Seq<char>, ValModel)>,
    tfs: Seq<(Seq<char>, TypeModel)>,
    rest: Seq<char>,
    i: int,
)
    requires
        vfs.len() == tfs.len(),
        forall|k: int|
            0 <= k < vfs.len() ==> (#[trigger] vfs[k]).0 == tfs[k].0 && has_type(
                vfs[k].1,
                tfs[k].1,
            ),
        wf_names(field_names(tfs)),
        forall|k: int| 0 <= k < tfs.len() ==> wf_type((#[trigger] tfs[k]).1),
        forall|k: int| 0 <= k < tfs.len() ==> codable((#[trigger] tfs[k]).1),
        0 <= i < vfs.len(),
    ensures
        sp_fields(fm_fields(vfs, i) + seq!['}'] + rest, tfs, slots_of(vfs, i)) == Ok::<
            (Seq<Option<ValModel>>, int),
            ErrModel,
        >((slots_of(vfs, vfs.len() as int), fm_fields(vfs, i).len() as int + 1)),
    decreases vfs, 3int, 4 * (vfs.len() - i) + 2,
{
    if i == vfs.len() - 1 {
        lemma_round_fields_last(vfs, tfs, rest, i);
    } else {
        lemma_round_fields_mid(vfs, tfs, rest, i);
    }
}


/// The name-and-colon head of one record field.
#[verifier::rlimit(100)]
proof fn lemma_field_name_part(
    vfs: Seq<(Seq<char>, ValModel)>,
    tfs: Seq<(Seq<char>, TypeModel)>,
    rest: Seq<char>,
    i: int,
    d: char,
    rest2: Seq<char>,
)
    requires
        vfs.len() == tfs.len(),
        forall|k: int| 0 <= k < vfs.len() ==> (#[trigger] vfs[k]).0 == tfs[k].0,
        wf_names(field_names(tfs)),
        0 <= i < vfs.len(),
        fm_fields(vfs, i) + seq!['}'] + rest == vfs[i].0 + seq![':'] + (fm_value(vfs[i].1)
            + seq![d] + rest2),
        fm_value(vfs[i].1).len() >= 1,
        !is_ws(fm_value(vfs[i].1)[0]),
    ensures
        ({
            let nm = vfs[i].0;
            let inp = fm_value(vfs[i].1) + seq![d] + rest2;
            let input = fm_fields(vfs, i) + seq!['}'] + rest;
            &&& ws_count(input) == 0
            &&& input.len() == nm.len() + 1 + inp.len()
            &&& input[0] != '}'
            &&& input.skip(0) =~= input
            &&& name_count(input) == nm.len()
            &&& input.take(nm.len() as int) == nm
            &&& find_name(field_names(tfs), nm) == i
            &&& slots_of(vfs, i)[i] is None
            &&& input[nm.len() as int] == ':'
            &&& ws_count(input.skip(nm.len() as int)) == 0
            &&& ws_count(input.skip(nm.len() as int + 1)) == 0
            &&& input.skip(nm.len() as int + 1) =~= inp
        }),
{
    let nm = vfs[i].0;
    let inp = fm_value(vfs[i].1) + seq![d] + rest2;
    let input = fm_fields(vfs, i) + seq!['}'] + rest;
    assert(wf_name(field_names(tfs)[i]));
    assert(field_names(tfs)[i] == tfs[i].0);
    assert(nm == tfs[i].0);
    assert(input =~= nm + (seq![':'] + inp));
    assert((seq![':'] + inp)[0] == ':');
    lemma_name_then(nm, seq![':'] + inp);
    assert(input[0] != '}');
    lemma_find_name_at(field_names(tfs), i);
    assert((seq![':'] + inp).skip(1) =~= inp);
    assert(input.skip(nm.len() as int + 1) =~= inp);
    assert(input.skip(nm.len() as int) =~= seq![':'] + inp);
    assert(ws_count(seq![':'] + inp) == 0);
    assert(ws_count(inp) == 0) by {
        assert(inp[0] == fm_value(vfs[i].1)[0]);
    }
}

/// The last field of a record literal.
#[verifier::rlimit(100)]
#[verifier::spinoff_prover]
proof fn lemma_round_fields_last(
    vfs: Seq<(Seq<char>, ValModel)>,
    tfs: Seq<(Seq<char>, TypeModel)>,
    rest: Seq<char>,
    i: int,
)
    requires
        vfs.len() == tfs.len(),
        forall|k: int|
            0 <= k < vfs.len() ==> (#[trigger] vfs[k]).0 == tfs[k].0 && has_type(
                vfs[k].1,
                tfs[k].1,
            ),
        wf_names(field_names(tfs)),
        forall|k: int| 0 <= k < tfs.len() ==> wf_type((#[trigger] tfs[k]).1),
        forall|k: int| 0 <= k < tfs.len() ==> codable((#[trigger] tfs[k]).1),
        0 <= i < vfs.len(),
        i == vfs.len() - 1,
    ensures
        sp_fields(fm_fields(vfs, i) + seq!['}'] + rest, tfs, slots_of(vfs, i)) == Ok::<
            (Seq<Option<ValModel>>, int),
            ErrModel,
        >((slots_of(vfs, vfs.len() as int), fm_fields(vfs, i).len() as int + 1)),
    decreases vfs, 3int, 4 * (vfs.len() - i) + 1,
{
    let fm = fm_fields(vfs, i);
    let input = fm + seq!['}'] + rest;
    let slots = slots_of(vfs, i);
    let nm = vfs[i].0;
    let fv = fm_value(vfs[i].1);
    let inp = fv + seq!['}'] + rest;
    lemma_value_then(vfs[i].1, tfs[i].1, '}', rest);
    assert(fm =~= nm + seq![':'] + fv);
    assert(input == nm + seq![':'] + inp) by {
        assert(input =~= nm + seq![':'] + (fv + seq!['}'] + rest));
    }
    lemma_field_name_part(vfs, tfs, rest, i, '}', rest);
    assert(wf_name(field_names(tfs)[i]));
    assert(nm == field_names(tfs)[i]);
    assert(nm.len() > 0);
    assert(input.skip(nm.len() as int + 1) == inp);
    assert(input.skip(nm.len() as int + 1 + fv.len()) =~= inp.skip(fv.len() as int));
    assert(input[nm.len() as int + 1 + fv.len()] == inp[fv.len() as int]);
    assert(slots.update(i, Some(vfs[i].1)) =~= slots_of(vfs, vfs.len() as int));
    assert(fm.len() == nm.len() + 1 + fv.len());
    assert(sp_fields(input, tfs, slots) == Ok::<(Seq<Option<ValModel>>, int), ErrModel>(
        (slots.update(i, Some(vfs[i].1)), nm.len() as int + 1 + fv.len() + 1),
    ));
}


/// A record field followed by a comma: parsing continues with the field's
/// slot filled and accounts for the consumed prefix.
#[verifier::rlimit(100)]
#[verifier::spinoff_prover]
proof fn lemma_fields_comma(
    vfs: Seq<(Seq<char>, ValModel)>,
    tfs: Seq<(Seq<char>, TypeModel)>,
    rest: Seq<char>,
    i: int,
)
    requires
        vfs.len() == tfs.len(),
        forall|k: int|
            0 <= k < vfs.len() ==> (#[trigger] vfs[k]).0 == tfs[k].0 && has_type(
                vfs[k].1,
                tfs[k].1,
            ),
        wf_names(field_names(tfs)),
        forall|k: int| 0 <= k < tfs.len() ==> wf_type((#[trigger] tfs[k]).1),
        forall|k: int| 0 <= k < tfs.len() ==> codable((#[trigger] tfs[k]).1),
        0 <= i < vfs.len() - 1,
    ensures
        ({
            let nm = vfs[i].0;
            let fv = fm_value(vfs[i].1);
            let rest2 = fm_fields(vfs, i + 1) + seq!['}'] + rest;
            let input = fm_fields(vfs, i) + seq!['}'] + rest;
            sp_fields(input, tfs, slots_of(vfs, i)) == (match sp_fields(
                rest2,
                tfs,
                slots_of(vfs, i).update(i, Some(vfs[i].1)),
            ) {
                Ok((r, k2)) => Ok::<(Seq<Option<ValModel>>, int), ErrModel>(
                    (r, nm.len() as int + 1 + fv.len() + 1 + k2),
                ),
                Err(e) => Err(e),
            })
        }),
    decreases vfs, 3int, 4 * (vfs.len() - i),
{
    let fm = fm_fields(vfs, i);
    let input = fm + seq!['}'] + rest;
    let slots = slots_of(vfs, i);
    let nm = vfs[i].0;
    let fv = fm_value(vfs[i].1);
    let rest2 = fm_fields(vfs, i + 1) + seq!['}'] + rest;
    let inp = fv + seq![','] + rest2;
    lemma_value_then(vfs[i].1, tfs[i].1, ',', rest2);
    assert(fm =~= nm + seq![':'] + fv + seq![','] + fm_fields(vfs, i + 1));
    assert(input == nm + seq![':'] + inp) by {
        assert(input =~= nm + seq![':'] + (fv + seq![','] + rest2));
    }
    lemma_field_name_part(vfs, tfs, rest, i, ',', rest2);
    assert(wf_name(field_names(tfs)[i]));
    assert(nm == field_names(tfs)[i]);
    assert(nm.len() > 0);
    assert(input.skip(nm.len() as int + 1) == inp);
    assert(input.skip(nm.len() as int + 1 + fv.len()) =~= inp.skip(fv.len() as int));
    assert(input[nm.len() as int + 1 + fv.len()] == inp[fv.len() as int]);
    assert(input.skip(nm.len() as int + 1 + fv.len() + 1) =~= inp.skip(fv.len() as int + 1));
    assert(inp.skip(fv.len() as int + 1) =~= rest2);
}

/// A field of a record literal with further fields after it.
#[verifier::rlimit(100)]
#[verifier::spinoff_prover]
proof fn lemma_round_fields_mid(
    vfs: Seq<(Seq<char>, ValModel)>,
    tfs: Seq<(Seq<char>, TypeModel)>,
    rest: Seq<char>,
    i: int,
)
    requires
        vfs.len() == tfs.len(),
        forall|k: int|
            0 <= k < vfs.len() ==> (#[trigger] vfs[k]).0 == tfs[k].0 && has_type(
                vfs[k].1,
                tfs[k].1,
            ),
        wf_names(field_names(tfs)),
        forall|k: int| 0 <= k < tfs.len() ==> wf_type((#[trigger] tfs[k]).1),
        forall|k: int| 0 <= k < tfs.len() ==> codable((#[trigger] tfs[k]).1),
        0 <= i < vfs.len() - 1,
    ensures
        sp_fields(fm_fields(vfs, i) + seq!['}'] + rest, tfs, slots_of(vfs, i)) == Ok::<
            (Seq<Option<ValModel>>, int),
            ErrModel,
        >((slots_of(vfs, vfs.len() as int), fm_fields(vfs, i).len() as int + 1)),
    decreases vfs, 3int, 4 * (vfs.len() - i) + 1,
{
    let fm = fm_fields(vfs, i);
    let input = fm + seq!['}'] + rest;
    let slots = slots_of(vfs, i);
    let nm = vfs[i].0;
    let fv = fm_value(vfs[i].1);
    let rest2 = fm_fields(vfs, i + 1) + seq!['}'] + rest;
    lemma_fields_comma(vfs, tfs, rest, i);
    assert(slots.update(i, Some(vfs[i].1)) =~= slots_of(vfs, i + 1));
    lemma_round_fields(vfs, tfs, rest, i + 1);
    assert(fm =~= nm + seq![':'] + fv + seq![','] + fm_fields(vfs, i + 1));
    assert(fm.len() == nm.len() + 1 + fv.len() + 1 + fm_fields(vfs, i + 1).len());
}


/// Round trip of the name list of a flags literal, from name `p` on.
#[verifier::rlimit(100)]
proof fn lemma_round_flag_names(
    ns: Seq<Seq<char>>,
    set: Seq<Seq<char>>,
    ix: Seq<int>,
    rest: Seq<char>,
    p: int,
)
    requires
        wf_names(ns),
        ix.len() == set.len(),
        forall|k: int| 0 <= k < ix.len() ==> 0 <= #[trigger] ix[k] < ns.len(),
        forall|a: int, b: int| 0 <= a < b < ix.len() ==> ix[a] < ix[b],
        forall|k: int| 0 <= k < ix.len() ==> #[trigger] set[k] == ns[ix[k]],
        0 <= p <= set.len(),
    ensures
        sp_flags(fm_names(set, p) + seq!['}'] + rest, ns, ix.take(p)) == Ok::<
            (Seq<int>, int),
            ErrModel,
        >((ix, fm_names(set, p).len() as int + 1)),
    decreases set.len() - p,
{
    let fm = fm_names(set, p);
    let input = fm + seq!['}'] + rest;
    let seen = ix.take(p);
    if p == set.len() {
        assert(fm =~= Seq::<char>::empty());
        assert(input =~= seq!['}'] + rest);
        assert(input[0] == '}');
        assert(ws_count(input) == 0);
        assert(seen =~= ix);
    } else {
        let nm = set[p];
        assert(nm == ns[ix[p]]);
        assert(wf_name(ns[ix[p]]));
        let tail = if p == set.len() - 1 {
            seq!['}'] + rest
        } else {
            seq![','] + fm_names(set, p + 1) + seq!['}'] + rest
        };
        assert(tail[0] == '}' || tail[0] == ',');
        assert(input =~= nm + tail) by {
            if p < set.len() - 1 {
                assert(fm =~= nm + seq![','] + fm_names(set, p + 1));
            }
        }
        lemma_name_then(nm, tail);
        assert(input[0] != '}');
        lemma_find_name_at(ns, ix[p]);
        assert(find_name(ns, nm) == ix[p]);
        assert(!seen.contains(ix[p])) by {
            if seen.contains(ix[p]) {
                let w = choose|w: int| 0 <= w < seen.len() && seen[w] == ix[p];
                assert(ix[w] < ix[p]);
            }
        }
        assert(seen.push(ix[p]) =~= ix.take(p + 1));
        if p == set.len() - 1 {
            assert(input[nm.len() as int] == '}');
            assert(ix.take(p + 1) =~= ix);
            assert(fm.len() == nm.len());
        } else {
            assert(input[nm.len() as int] == ',');
            assert(tail.skip(1) =~= fm_names(set, p + 1) + seq!['}'] + rest);
            assert(input.skip(nm.len() as int + 1) =~= fm_names(set, p + 1) + seq!['}'] + rest);
            lemma_round_flag_names(ns, set, ix, rest, p + 1);
            assert(fm.len() == nm.len() + 1 + fm_names(set, p + 1).len());
        }
    }
}


/// The law of missing record fields: when a record literal's fields all
/// parse but some declared field was never supplied, the record fails
/// with `MissingField` naming the first such declared field.
pub proof fn lemma_missing_field_named(s: Seq<char>, tfs: Seq<(Seq<char>, TypeModel)>)
    requires
        s.len() > 0,
        s[0] == '{',
        sp_fields(s.skip(1), tfs, Seq::new(tfs.len(), |i: int| None)) is Ok,
        first_unfilled(sp_fields(s.skip(1), tfs, Seq::new(tfs.len(), |i: int| None))->Ok_0.0, 0)
            >= 0,
    ensures
        ({
            let slots = sp_fields(s.skip(1), tfs, Seq::new(tfs.len(), |i: int| None))->Ok_0.0;
            let m = first_unfilled(slots, 0);
            &&& sp_value(s, TypeModel::Record(tfs)) == Err::<(ValModel, int), ErrModel>(
                ErrModel::MissingField(tfs[m].0),
            )
            &&& 0 <= m < slots.len()
            &&& slots[m] is None
        }),
{
    let slots = sp_fields(s.skip(1), tfs, Seq::new(tfs.len(), |i: int| None))->Ok_0.0;
    lemma_first_unfilled_bounds(slots, 0);
}

/// `first_unfilled` reports an index of an unfilled slot when it reports
/// any.
proof fn lemma_first_unfilled_bounds(slots: Seq<Option<ValModel>>, i: int)
    ensures
        first_unfilled(slots, i) >= 0 ==> i <= first_unfilled(slots, i) < slots.len() && slots[
            first_unfilled(slots, i)
        ] is None,
    decreases slots.len() - i,
{
    if 0 <= i < slots.len() && !(slots[i] is None) {
        lemma_first_unfilled_bounds(slots, i + 1);
    }
}

/// The law of unknown record keys: when the next key in a record literal
/// is a name the record does not declare, the fields fail with
/// `UnknownField` naming exactly that key.
pub proof fn lemma_unknown_field_named(
    s: Seq<char>,
    tfs: Seq<(Seq<char>, TypeModel)>,
    slots: Seq<Option<ValModel>>,
)
    requires
        ({
            let w = ws_count(s);
            let n = name_count(s.skip(w));
            &&& 0 <= w <= s.len()
            &&& !(w < s.len() && s[w] == '}')
            &&& n > 0
            &&& find_name(field_names(tfs), s.skip(w).take(n)) == -1
        }),
    ensures
        ({
            let w = ws_count(s);
            let n = name_count(s.skip(w));
            sp_fields(s, tfs, slots) == Err::<(Seq<Option<ValModel>>, int), ErrModel>(
                ErrModel::UnknownField(s.skip(w).take(n)),
            )
        }),
{
}

/// The round trip law: for every well-formed, handle-free type `t` and
/// every value `v` of that type, parsing the canonical text of `v` at `t`
/// yields exactly `v`.
pub proof fn lemma_round_trip(v: ValModel, t: TypeModel)
    requires
        has_type(v, t),
        wf_type(t),
        codable(t),
    ensures
        sp_complete(fm_value(v), t) == Ok::<ValModel, ErrModel>(v),
{
    let fm = fm_value(v);
    lemma_fm_first(v, t);
    assert(ws_count(fm) == 0);
    assert(fm.skip(0) =~= fm);
    assert(fm =~= fm + Seq::<char>::empty());
    lemma_round_value(v, t, Seq::<char>::empty());
    assert(sp_value(fm, t) == Ok::<(ValModel, int), ErrModel>((v, fm.len() as int)));
    assert(fm.skip(fm.len() as int) =~= Seq::<char>::empty());
    assert(ws_count(Seq::<char>::empty()) == 0);
}

} // verus!
