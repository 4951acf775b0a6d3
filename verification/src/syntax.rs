//! The call-expression parser: `name(arg, ...)` text split into the export
//! name and the raw, unparsed argument spans.
//!
//! The grammar is `ident '(' [literal (',' literal)*] ')'`. Splitting is
//! untyped: argument spans are cut at top-level commas, with brackets
//! balanced and quoted bodies skipped; the codec interprets each span
//! later against its declared type. An empty function name, unbalanced
//! brackets, an unterminated string, or trailing characters after the
//! closing parenthesis fail with a syntax error.
use crate::codec::{copy_range, name_views};
use crate::error::{CallError, ErrModel};
use crate::text::{name_count, scan_name, scan_ws, sp_body, ws_count};
use vstd::prelude::*;

verus! {

broadcast use vstd::seq::group_seq_axioms, vstd::seq_lib::group_seq_lib_default, vstd::std_specs::vec::group_vec_axioms;

/// Split the argument text of a call from the front of `s` (which starts
/// just after the opening parenthesis) at top-level commas, up to the
/// matching closing parenthesis, which is consumed. `depth` is the count
/// of open brackets, `cur` the span being read, `acc` the spans read.
pub open spec fn sp_spans(
    s: Seq<char>,
    depth: int,
    cur: Seq<char>,
    acc: Seq<Seq<char>>,
) -> Result<(Seq<Seq<char>>, int), ErrModel>
    decreases s.len(),
{
    if s.len() == 0 {
        Err(ErrModel::Syntax)
    } else {
        let c = s[0];
        if c == '"' || c == '\'' {
            match sp_body(s.skip(1), c) {
                Err(e) => Err(e),
                Ok((_body, k)) => if !(0 <= k && 2 + k <= s.len()) {
                    Err(ErrModel::Syntax)
                } else {
                    match sp_spans(s.skip(2 + k), depth, cur + s.take(2 + k), acc) {
                        Err(e) => Err(e),
                        Ok((args, k2)) => Ok((args, 2 + k + k2)),
                    }
                },
            }
        } else if c == '(' || c == '[' || c == '{' {
            match sp_spans(s.skip(1), depth + 1, cur.push(c), acc) {
                Err(e) => Err(e),
                Ok((args, k)) => Ok((args, 1 + k)),
            }
        } else if c == ']' || c == '}' {
            if depth <= 0 {
                Err(ErrModel::Syntax)
            } else {
                match sp_spans(s.skip(1), depth - 1, cur.push(c), acc) {
                    Err(e) => Err(e),
                    Ok((args, k)) => Ok((args, 1 + k)),
                }
            }
        } else if c == ')' {
            if depth == 0 {
                if acc.len() == 0 && ws_count(cur) == cur.len() {
                    Ok((Seq::empty(), 1))
                } else {
                    Ok((acc.push(cur), 1))
                }
            } else {
                match sp_spans(s.skip(1), depth - 1, cur.push(c), acc) {
                    Err(e) => Err(e),
                    Ok((args, k)) => Ok((args, 1 + k)),
                }
            }
        } else if c == ',' && depth == 0 {
            match sp_spans(s.skip(1), depth, Seq::empty(), acc.push(cur)) {
                Err(e) => Err(e),
                Ok((args, k)) => Ok((args, 1 + k)),
            }
        } else {
            match sp_spans(s.skip(1), depth, cur.push(c), acc) {
                Err(e) => Err(e),
                Ok((args, k)) => Ok((args, 1 + k)),
            }
        }
    }
}

/// Parse a whole call expression: leading whitespace, the export name,
/// the parenthesized argument spans, trailing whitespace and nothing
/// else. Fails with a syntax error exactly on malformed text: an empty
/// name, a missing or unbalanced parenthesis, an unterminated string, or
/// trailing characters.
pub open spec fn sp_call(s: Seq<char>) -> Result<(Seq<char>, Seq<Seq<char>>), ErrModel> {
    let w = ws_count(s);
    if !(0 <= w <= s.len()) {
        Err(ErrModel::Syntax)
    } else {
        let n = name_count(s.skip(w));
        if n <= 0 || w + n > s.len() {
            Err(ErrModel::Syntax)
        } else if !(w + n < s.len() && s[w + n] == '(') {
            Err(ErrModel::Syntax)
        } else {
            match sp_spans(s.skip(w + n + 1), 0, Seq::empty(), Seq::empty()) {
                Err(e) => Err(e),
                Ok((args, k)) => if !(0 <= k && w + n + 1 + k <= s.len()) {
                    Err(ErrModel::Syntax)
                } else if w + n + 1 + k + ws_count(s.skip(w + n + 1 + k)) == s.len() {
                    Ok((s.skip(w).take(n), args))
                } else {
                    Err(ErrModel::Syntax)
                },
            }
        }
    }
}

/// Scan argument spans from position `i`, mirroring [`sp_spans`].
#[verifier::rlimit(100)]
#[verifier::spinoff_prover]
fn scan_spans(s: &[char], i: usize, depth: usize, cur: Vec<char>, acc: Vec<Vec<char>>) -> (r:
    Result<(Vec<Vec<char>>, usize), CallError>)
    requires
        i <= s@.len(),
        depth <= i,
    ensures
        ({
            match (r, sp_spans(s@.skip(i as int), depth as int, cur@, name_views(acc@))) {
                (Ok((args, j)), Ok((sargs, k))) => i <= j <= s@.len() && j == i + k && name_views(
                    args@,
                ) == sargs,
                (Err(e), Err(em)) => e.model() == em,
                _ => false,
            }
        }),
    decreases s@.len() - i,
{
    let ghost suf = s@.skip(i as int);
    if i >= s.len() {
        return Err(CallError::Syntax);
    }
    let c = s[i];
    proof {
        assert(suf[0] == s@[i as int]);
    }
    if c == '"' || c == '\'' {
        proof {
            assert(suf.skip(1) =~= s@.skip(i + 1));
        }
        let mut scratch: Vec<char> = Vec::new();
        match crate::codec::scan_body(s, i + 1, c, &mut scratch) {
            Err(e) => Err(e),
            Ok(j) => {
                let mut cur2 = cur;
                let mut q: usize = i;
                let jend = j + 1;
                let ghost cur0 = cur2@;
                while q < jend
                    invariant
                        i <= q <= jend <= s@.len(),
                        jend == j + 1,
                        cur2@ == cur0 + s@.subrange(i as int, q as int),
                    decreases jend - q,
                {
                    cur2.push(s[q]);
                    proof {
                        assert(s@.subrange(i as int, q + 1) =~= s@.subrange(i as int, q as int)
                            .push(s@[q as int]));
                    }
                    q = q + 1;
                }
                proof {
                    let k = j - (i + 1);
                    assert(suf.take(2 + k) =~= s@.subrange(i as int, j + 1));
                    assert(cur2@ == cur@ + suf.take(2 + k));
                    assert(suf.skip(2 + k) =~= s@.skip(j + 1));
                }
                match scan_spans(s, j + 1, depth, cur2, acc) {
                    Err(e) => Err(e),
                    Ok((args, j2)) => Ok((args, j2)),
                }
            },
        }
    } else if c == '(' || c == '[' || c == '{' {
        let mut cur2 = cur;
        cur2.push(c);
        proof {
            assert(suf.skip(1) =~= s@.skip(i + 1));
            assert(cur2@ == cur@.push(c));
        }
        scan_spans(s, i + 1, depth + 1, cur2, acc)
    } else if c == ']' || c == '}' {
        if depth == 0 {
            Err(CallError::Syntax)
        } else {
            let mut cur2 = cur;
            cur2.push(c);
            proof {
                assert(suf.skip(1) =~= s@.skip(i + 1));
            }
            scan_spans(s, i + 1, depth - 1, cur2, acc)
        }
    } else if c == ')' {
        if depth == 0 {
            let w = scan_ws(&cur, 0);
            proof {
                assert(cur@.skip(0) =~= cur@);
            }
            if acc.len() == 0 && w == cur.len() {
                let out: Vec<Vec<char>> = Vec::new();
                proof {
                    assert(name_views(out@) =~= Seq::<Seq<char>>::empty());
                }
                Ok((out, i + 1))
            } else {
                let mut acc2 = acc;
                acc2.push(cur);
                proof {
                    assert(name_views(acc2@) =~= name_views(acc@).push(acc2@[acc2@.len() - 1]@));
                }
                Ok((acc2, i + 1))
            }
        } else {
            let mut cur2 = cur;
            cur2.push(c);
            proof {
                assert(suf.skip(1) =~= s@.skip(i + 1));
            }
            scan_spans(s, i + 1, depth - 1, cur2, acc)
        }
    } else if c == ',' && depth == 0 {
        let mut acc2 = acc;
        acc2.push(cur);
        proof {
            assert(suf.skip(1) =~= s@.skip(i + 1));
            assert(name_views(acc2@) =~= name_views(acc@).push(acc2@[acc2@.len() - 1]@));
        }
        scan_spans(s, i + 1, depth, Vec::new(), acc2)
    } else {
        let mut cur2 = cur;
        cur2.push(c);
        proof {
            assert(suf.skip(1) =~= s@.skip(i + 1));
        }
        scan_spans(s, i + 1, depth, cur2, acc)
    }
}

/// Parse a call expression into the export name and the raw argument
/// spans, mirroring [`sp_call`] exactly.
#[verifier::rlimit(100)]
#[verifier::spinoff_prover]
pub fn parse_call(s: &[char]) -> (r: Result<(Vec<char>, Vec<Vec<char>>), CallError>)
    ensures
        ({
            match (r, sp_call(s@)) {
                (Ok((name, args)), Ok((sn, sa))) => name@ == sn && name_views(args@) == sa,
                (Err(e), Err(em)) => e.model() == em,
                _ => false,
            }
        }),
{
    let w = scan_ws(s, 0);
    proof {
        assert(s@.skip(0) =~= s@);
    }
    let n_end = scan_name(s, w);
    proof {
        assert(s@.skip(w as int).take(n_end - w) =~= s@.subrange(w as int, n_end as int));
    }
    if n_end == w {
        return Err(CallError::Syntax);
    }
    if !(n_end < s.len() && s[n_end] == '(') {
        return Err(CallError::Syntax);
    }
    proof {
        assert(name_views(Seq::<Vec<char>>::empty()) =~= Seq::<Seq<char>>::empty());
        assert(s@.skip(n_end + 1) =~= s@.skip(n_end + 1));
    }
    match scan_spans(s, n_end + 1, 0, Vec::new(), Vec::new()) {
        Err(e) => Err(e),
        Ok((args, j)) => {
            let b = scan_ws(s, j);
            if b == s.len() {
                let name = copy_range(s, w, n_end);
                Ok((name, args))
            } else {
                Err(CallError::Syntax)
            }
        },
    }
}

} // verus!
