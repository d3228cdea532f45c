//! DIMACS CNF parsing.
//!
//! The textual format is line oriented: a header `p cnf <n_var> <n_clause>`
//! followed by `n_clause` lines, each a space-separated list of nonzero
//! integers closed by a `0`.  A positive integer `k` denotes the positive
//! literal of variable `k - 1`, a negative `-k` its negation.  Lines may
//! end in a carriage return before the line feed; material after the last
//! clause line is ignored.
//!
//! The grammar is stated by the specification functions of this module;
//! `parse_dimacs` accepts exactly the inputs the grammar admits.

use vstd::prelude::*;

verus! {

/// ASCII decimal digit.
pub open spec fn is_digit(b: u8) -> bool {
    48 <= b <= 57
}

/// Value of a digit string, most significant digit first.
pub open spec fn digits_val(s: Seq<u8>) -> int
    decreases s.len(),
{
    if s.len() == 0 {
        0
    } else {
        digits_val(s.drop_last()) * 10 + (s.last() - 48)
    }
}

/// Powers of ten.
pub open spec fn pow10(n: nat) -> int
    decreases n,
{
    if n == 0 {
        1
    } else {
        10 * pow10((n - 1) as nat)
    }
}

/// `pow10` grows with its argument.
pub proof fn lemma_pow10_mono(a: nat, b: nat)
    requires
        a <= b,
    ensures
        0 < pow10(a) <= pow10(b),
    decreases b,
{
    if b > 0 {
        if a == b {
            lemma_pow10_mono((a - 1) as nat, (b - 1) as nat);
        } else {
            lemma_pow10_mono(a, (b - 1) as nat);
        }
    }
}

/// A digit string of length `n` denotes a value below `pow10(n)`.
pub proof fn lemma_digits_val_bound(s: Seq<u8>)
    requires
        forall|i: int| 0 <= i < s.len() ==> is_digit(#[trigger] s[i]),
    ensures
        0 <= digits_val(s) < pow10(s.len()),
    decreases s.len(),
{
    if s.len() > 0 {
        lemma_digits_val_bound(s.drop_last());
    }
}

/// A numeral: at most ten digits denoting a value below `2^31`, the
/// integer domain of a DIMACS literal.  The bound is platform-independent
/// and matches what a 32-bit signed parse admits.
pub open spec fn is_numeral(s: Seq<u8>) -> bool {
    &&& 1 <= s.len() <= 10
    &&& digits_val(s) < 0x80000000
    &&& forall|i: int| 0 <= i < s.len() ==> is_digit(#[trigger] s[i])
}

/// An integer token: a numeral with an optional leading minus sign.
pub open spec fn is_int_token(s: Seq<u8>) -> bool {
    is_numeral(s) || (s.len() >= 2 && s[0] == 45 && is_numeral(s.skip(1)))
}

/// Value of an integer token.
pub open spec fn int_val(s: Seq<u8>) -> int {
    if s.len() >= 1 && s[0] == 45 {
        -digits_val(s.skip(1))
    } else {
        digits_val(s)
    }
}

/// Strips one trailing carriage return.
pub open spec fn strip_cr(s: Seq<u8>) -> Seq<u8> {
    if s.len() > 0 && s.last() == 13 {
        s.drop_last()
    } else {
        s
    }
}

/// Splits `s` into lines at each line feed, `cur` being the line read so
/// far; each line is stripped of a trailing carriage return.
pub open spec fn lines_go(s: Seq<u8>, cur: Seq<u8>) -> Seq<Seq<u8>>
    decreases s.len(),
{
    if s.len() == 0 {
        seq![strip_cr(cur)]
    } else if s[0] == 10 {
        seq![strip_cr(cur)] + lines_go(s.drop_first(), Seq::empty())
    } else {
        lines_go(s.drop_first(), cur.push(s[0]))
    }
}

/// The lines of `s`.
pub open spec fn lines_of(s: Seq<u8>) -> Seq<Seq<u8>> {
    lines_go(s, Seq::empty())
}

/// There is always at least one line.
pub proof fn lemma_lines_go_len(s: Seq<u8>, cur: Seq<u8>)
    ensures
        lines_go(s, cur).len() >= 1,
    decreases s.len(),
{
    if s.len() != 0 && s[0] != 10 {
        lemma_lines_go_len(s.drop_first(), cur.push(s[0]));
    } else if s.len() != 0 {
        lemma_lines_go_len(s.drop_first(), Seq::empty());
    }
}

/// Splits `s` into tokens at spaces, skipping empty tokens, `cur` being
/// the token read so far.
pub open spec fn tokens_go(s: Seq<u8>, cur: Seq<u8>) -> Seq<Seq<u8>>
    decreases s.len(),
{
    if s.len() == 0 {
        if cur.len() > 0 {
            seq![cur]
        } else {
            Seq::empty()
        }
    } else if s[0] == 32 {
        if cur.len() > 0 {
            seq![cur] + tokens_go(s.drop_first(), Seq::empty())
        } else {
            tokens_go(s.drop_first(), Seq::empty())
        }
    } else {
        tokens_go(s.drop_first(), cur.push(s[0]))
    }
}

/// The space-separated tokens of a line.
pub open spec fn tokens_of(s: Seq<u8>) -> Seq<Seq<u8>> {
    tokens_go(s, Seq::empty())
}

/// A well-formed header line: exactly the four tokens `p`, `cnf`, and two
/// numerals.
pub open spec fn header_ok(line: Seq<u8>) -> bool {
    let t = tokens_of(line);
    &&& t.len() == 4
    &&& t[0] == seq![112u8]
    &&& t[1] == seq![99u8, 110u8, 102u8]
    &&& is_numeral(t[2])
    &&& is_numeral(t[3])
}

/// A well-formed clause line: at least one integer token, all nonzero but
/// the last, which is the terminating `0`.
pub open spec fn clause_line_ok(line: Seq<u8>) -> bool {
    let t = tokens_of(line);
    &&& t.len() >= 1
    &&& forall|k: int| 0 <= k < t.len() ==> is_int_token(#[trigger] t[k])
    &&& int_val(t.last()) == 0
    &&& forall|k: int| 0 <= k < t.len() - 1 ==> int_val(#[trigger] t[k]) != 0
}

/// A well-formed DIMACS input: a header line followed by as many clause
/// lines as the header announces.
pub open spec fn dimacs_ok(s: Seq<u8>) -> bool {
    let ls = lines_of(s);
    &&& header_ok(ls[0])
    &&& ls.len() >= 1 + digits_val(tokens_of(ls[0])[3])
    &&& forall|k: int|
        0 <= k < digits_val(tokens_of(ls[0])[3]) ==> clause_line_ok(#[trigger] ls[1 + k])
}

/// The views of a list of byte vectors.
pub open spec fn views(v: Seq<Vec<u8>>) -> Seq<Seq<u8>> {
    v.map_values(|x: Vec<u8>| x@)
}

/// Splits the input into lines, as `lines_of` describes.
fn split_lines(input: &Vec<u8>) -> (r: Vec<Vec<u8>>)
    ensures
        views(r@) == lines_of(input@),
{
    let n = input.len();
    let mut out: Vec<Vec<u8>> = Vec::new();
    let mut cur: Vec<u8> = Vec::new();
    let mut i: usize = 0;
    proof {
        assert(input@.skip(0) =~= input@);
        assert(views(out@) + lines_go(input@.skip(0), cur@) =~= lines_of(input@));
    }
    while i < n
        invariant
            i <= n,
            n == input@.len(),
            lines_of(input@) == views(out@) + lines_go(input@.skip(i as int), cur@),
        decreases n - i,
    {
        let b = input[i];
        proof {
            assert(input@.skip(i as int)[0] == input@[i as int]);
            assert(input@.skip(i as int).drop_first() =~= input@.skip(i + 1));
        }
        if b == 10 {
            let ghost cur_before = cur@;
            let mut line = cur;
            if line.len() > 0 && line[line.len() - 1] == 13 {
                let _ = line.pop();
            }
            proof {
                assert(line@ == strip_cr(cur_before));
            }
            let ghost out_before = out@;
            out.push(line);
            cur = Vec::new();
            proof {
                assert(views(out@) =~= views(out_before).push(line@));
                assert(lines_go(input@.skip(i as int), cur_before) =~= seq![strip_cr(cur_before)]
                    + lines_go(input@.skip(i + 1), Seq::empty()));
                assert(views(out@) + lines_go(input@.skip(i + 1), cur@) =~= lines_of(input@));
            }
        } else {
            cur.push(b);
            proof {
                assert(views(out@) + lines_go(input@.skip(i + 1), cur@) =~= lines_of(input@));
            }
        }
        i += 1;
    }
    let mut line = cur;
    if line.len() > 0 && line[line.len() - 1] == 13 {
        let _ = line.pop();
    }
    out.push(line);
    proof {
        assert(input@.skip(n as int) =~= Seq::<u8>::empty());
        assert(views(out@) =~= lines_of(input@));
    }
    out
}

/// Splits a line into its space-separated tokens, as `tokens_of`
/// describes.
fn tokenize(line: &Vec<u8>) -> (r: Vec<Vec<u8>>)
    ensures
        views(r@) == tokens_of(line@),
{
    let n = line.len();
    let mut out: Vec<Vec<u8>> = Vec::new();
    let mut cur: Vec<u8> = Vec::new();
    let mut i: usize = 0;
    proof {
        assert(line@.skip(0) =~= line@);
        assert(views(out@) + tokens_go(line@.skip(0), cur@) =~= tokens_of(line@));
    }
    while i < n
        invariant
            i <= n,
            n == line@.len(),
            tokens_of(line@) == views(out@) + tokens_go(line@.skip(i as int), cur@),
        decreases n - i,
    {
        let b = line[i];
        proof {
            assert(line@.skip(i as int)[0] == line@[i as int]);
            assert(line@.skip(i as int).drop_first() =~= line@.skip(i + 1));
        }
        if b == 32 {
            if cur.len() > 0 {
                let ghost cur_before = cur@;
                let ghost out_before = out@;
                out.push(cur);
                cur = Vec::new();
                proof {
                    assert(views(out@) =~= views(out_before).push(cur_before));
                    assert(tokens_go(line@.skip(i as int), cur_before) =~= seq![cur_before]
                        + tokens_go(line@.skip(i + 1), Seq::empty()));
                    assert(cur@ =~= Seq::<u8>::empty());
                    assert(tokens_go(line@.skip(i + 1), cur@) == tokens_go(
                        line@.skip(i + 1),
                        Seq::<u8>::empty(),
                    ));
                    assert(views(out@) + tokens_go(line@.skip(i + 1), cur@) =~= views(out_before)
                        + (seq![cur_before] + tokens_go(line@.skip(i + 1), Seq::<u8>::empty())));
                    assert(views(out_before) + (seq![cur_before] + tokens_go(
                        line@.skip(i + 1),
                        Seq::<u8>::empty(),
                    )) =~= views(out_before) + tokens_go(line@.skip(i as int), cur_before));
                    assert(tokens_of(line@) == views(out_before) + tokens_go(
                        line@.skip(i as int),
                        cur_before,
                    ));
                    assert(views(out@) + tokens_go(line@.skip(i + 1), cur@) == tokens_of(line@));
                }
            } else {
                proof {
                    assert(cur@ =~= Seq::<u8>::empty());
                    assert(views(out@) + tokens_go(line@.skip(i + 1), cur@) =~= tokens_of(line@));
                }
            }
        } else {
            cur.push(b);
            proof {
                assert(views(out@) + tokens_go(line@.skip(i + 1), cur@) =~= tokens_of(line@));
            }
        }
        i += 1;
    }
    proof {
        assert(line@.skip(n as int) =~= Seq::<u8>::empty());
    }
    if cur.len() > 0 {
        out.push(cur);
        proof {
            assert(views(out@) =~= tokens_of(line@));
        }
    } else {
        proof {
            assert(views(out@) =~= tokens_of(line@));
        }
    }
    out
}

/// Reads the numeral that starts at `start` and runs to the end of the
/// token: `None` exactly when those bytes are not a numeral.
fn parse_numeral_from(tok: &Vec<u8>, start: usize) -> (r: Option<u64>)
    requires
        start <= tok@.len(),
    ensures
        r is Some <==> is_numeral(tok@.skip(start as int)),
        r matches Some(v) ==> v == digits_val(tok@.skip(start as int)) && v < 0x80000000,
{
    let n = tok.len();
    let len = n - start;
    if len < 1 || len > 10 {
        return None;
    }
    let ghost sub = tok@.skip(start as int);
    let mut acc: u64 = 0;
    let mut j: usize = 0;
    while j < len
        invariant
            j <= len,
            n == tok@.len(),
            len == sub.len(),
            sub == tok@.skip(start as int),
            start + len == tok@.len(),
            len <= 10,
            acc == digits_val(sub.take(j as int)),
            forall|k: int| 0 <= k < j ==> is_digit(#[trigger] sub[k]),
            acc < pow10(j as nat),
            acc < 10000000000,
        decreases len - j,
    {
        proof {
            assert(start + j < tok@.len());
        }
        let b = tok[start + j];
        proof {
            assert(sub[j as int] == tok@[start + j]);
        }
        if !(48 <= b && b <= 57) {
            return None;
        }
        proof {
            lemma_digits_val_bound(sub.take(j as int));
            lemma_pow10_mono(j as nat, 9);
            assert(pow10(9) == 1000000000) by {
                reveal_with_fuel(pow10, 10);
            };
            assert(acc < 1000000000);
            assert(sub.take(j + 1).drop_last() =~= sub.take(j as int));
            assert(sub.take(j + 1).last() == sub[j as int]);
        }
        acc = acc * 10 + ((b - 48) as u64);
        proof {
            lemma_digits_val_bound(sub.take(j + 1));
            lemma_pow10_mono((j + 1) as nat, 10);
            assert(pow10(10) == 10000000000) by {
                reveal_with_fuel(pow10, 11);
            };
        }
        j += 1;
    }
    proof {
        assert(sub.take(len as int) =~= sub);
    }
    if acc >= 0x80000000 {
        return None;
    }
    Some(acc)
}

/// Reads an integer token: `None` exactly when the token is not an
/// optionally negated numeral.
fn parse_int(tok: &Vec<u8>) -> (r: Option<i64>)
    ensures
        r is Some <==> is_int_token(tok@),
        r matches Some(v) ==> v == int_val(tok@) && -0x80000000 < v < 0x80000000,
{
    if tok.len() >= 1 && tok[0] == 45 {
        match parse_numeral_from(tok, 1) {
            Some(v) => {
                proof {
                    assert(tok@.skip(1).len() == tok@.len() - 1);
                }
                Some(-(v as i64))
            },
            None => {
                proof {
                    assert(!is_numeral(tok@)) by {
                        if is_numeral(tok@) {
                            assert(is_digit(tok@[0]));
                        }
                    };
                }
                None
            },
        }
    } else {
        match parse_numeral_from(tok, 0) {
            Some(v) => {
                proof {
                    assert(tok@.skip(0) =~= tok@);
                }
                Some(v as i64)
            },
            None => {
                proof {
                    assert(tok@.skip(0) =~= tok@);
                }
                None
            },
        }
    }
}

/// Parses a DIMACS CNF input.
///
/// Returns the variable count, the clause count, and the clauses as lists
/// of nonzero integers with the terminating `0` removed.  The result is
/// `Some` exactly when the input satisfies the DIMACS grammar
/// (`dimacs_ok`); conversion of the integers to solver literals is a
/// separate step.
pub fn parse_dimacs(input: &Vec<u8>) -> (r: Option<(usize, usize, Vec<Vec<i64>>)>)
    ensures
        r is Some <==> dimacs_ok(input@),
        r matches Some(t) ==> ({
            let ls = lines_of(input@);
            let header = tokens_of(ls[0]);
            let cls = t.2@;
            &&& t.0 == digits_val(header[2])
            &&& t.1 == digits_val(header[3])
            &&& cls.len() == t.1
            &&& forall|k: int|
                0 <= k < t.1 ==> ({
                    let toks = tokens_of(ls[1 + k]);
                    &&& (#[trigger] cls[k])@.len() == toks.len() - 1
                    &&& forall|j: int|
                        0 <= j < toks.len() - 1 ==> cls[k]@[j] == int_val(#[trigger] toks[j])
                })
        }),
{
    proof {
        lemma_lines_go_len(input@, Seq::empty());
    }
    let lines = split_lines(input);
    proof {
        assert(lines@.len() == lines_of(input@).len());
        assert(lines@[0]@ == lines_of(input@)[0]);
    }
    let header = tokenize(&lines[0]);
    let ghost hs = tokens_of(lines_of(input@)[0]);
    if header.len() != 4 {
        return None;
    }
    proof {
        assert(header@[0]@ == hs[0] && header@[1]@ == hs[1] && header@[2]@ == hs[2]
            && header@[3]@ == hs[3]);
    }
    if !(header[0].len() == 1 && header[0][0] == 112) {
        proof {
            assert(!(hs[0] =~= seq![112u8]) ==> hs[0] != seq![112u8]);
            if header@[0]@.len() == 1 && header@[0]@[0] == 112 {
                assert(hs[0] =~= seq![112u8]);
            }
        }
        return None;
    }
    proof {
        assert(hs[0] =~= seq![112u8]);
    }
    if !(header[1].len() == 3 && header[1][0] == 99 && header[1][1] == 110 && header[1][2]
        == 102) {
        proof {
            if header@[1]@.len() == 3 && header@[1]@[0] == 99 && header@[1]@[1] == 110
                && header@[1]@[2] == 102 {
                assert(hs[1] =~= seq![99u8, 110u8, 102u8]);
            }
        }
        return None;
    }
    proof {
        assert(hs[1] =~= seq![99u8, 110u8, 102u8]);
    }
    let n_var_u = match parse_numeral_from(&header[2], 0) {
        Some(v) => v,
        None => {
            proof {
                assert(header@[2]@.skip(0) =~= hs[2]);
            }
            return None;
        },
    };
    let n_clause_u = match parse_numeral_from(&header[3], 0) {
        Some(v) => v,
        None => {
            proof {
                assert(header@[3]@.skip(0) =~= hs[3]);
            }
            return None;
        },
    };
    proof {
        assert(header@[2]@.skip(0) =~= hs[2]);
        assert(header@[3]@.skip(0) =~= hs[3]);
    }
    let n_var = n_var_u as usize;
    let n_clause = n_clause_u as usize;
    if lines.len() < 1 + n_clause {
        return None;
    }
    let mut clauses: Vec<Vec<i64>> = Vec::new();
    let mut k: usize = 0;
    while k < n_clause
        invariant
            k <= n_clause,
            1 + n_clause <= lines@.len(),
            views(lines@) == lines_of(input@),
            n_clause == digits_val(tokens_of(lines_of(input@)[0])[3]),
            clauses@.len() == k,
            forall|d: int| 0 <= d < k ==> clause_line_ok(#[trigger] lines_of(input@)[1 + d]),
            forall|d: int|
                0 <= d < k ==> {
                    let toks = tokens_of(lines_of(input@)[1 + d]);
                    &&& (#[trigger] clauses@[d])@.len() == toks.len() - 1
                    &&& forall|j: int|
                        0 <= j < toks.len() - 1 ==> clauses@[d]@[j] == int_val(#[trigger] toks[j])
                },
        decreases n_clause - k,
    {
        let toks = tokenize(&lines[1 + k]);
        let ghost ts = tokens_of(lines_of(input@)[1 + k as int]);
        proof {
            assert(lines@[1 + k as int]@ == lines_of(input@)[1 + k as int]);
            assert(views(toks@) == ts);
        }
        if toks.len() == 0 {
            return None;
        }
        let m = toks.len();
        let mut cl: Vec<i64> = Vec::new();
        let mut j: usize = 0;
        while j < m
            invariant
                j <= m,
                m == toks@.len(),
                m >= 1,
                views(toks@) == ts,
                ts == tokens_of(lines_of(input@)[1 + k as int]),
                k < n_clause,
                1 + n_clause <= lines@.len(),
                views(lines@) == lines_of(input@),
                n_clause == digits_val(tokens_of(lines_of(input@)[0])[3]),
                cl@.len() == if j < m {
                    j as int
                } else {
                    (m - 1) as int
                },
                forall|x: int| 0 <= x < j && x < m - 1 ==> is_int_token(#[trigger] ts[x]) && int_val(
                    ts[x],
                ) != 0 && cl@[x] == int_val(ts[x]),
                j == m ==> is_int_token(ts[m - 1]) && int_val(ts[m - 1]) == 0,
            decreases m - j,
        {
            proof {
                assert(toks@[j as int]@ == ts[j as int]);
            }
            let v = match parse_int(&toks[j]) {
                Some(v) => v,
                None => {
                    proof {
                        assert(!is_int_token(ts[j as int]));
                        assert(!clause_line_ok(lines_of(input@)[1 + k as int]));
                    }
                    return None;
                },
            };
            if j + 1 < m {
                if v == 0 {
                    proof {
                        assert(int_val(ts[j as int]) == 0);
                        assert(!clause_line_ok(lines_of(input@)[1 + k as int]));
                    }
                    return None;
                }
                cl.push(v);
            } else {
                if v != 0 {
                    proof {
                        assert(ts.len() == m);
                        assert(j == m - 1);
                        assert(int_val(ts[j as int]) != 0);
                        assert(ts.last() == ts[m - 1]);
                        assert(int_val(tokens_of(lines_of(input@)[1 + k as int]).last()) != 0);
                        assert(!clause_line_ok(lines_of(input@)[1 + k as int]));
                    }
                    return None;
                }
            }
            j += 1;
        }
        proof {
            assert(clause_line_ok(lines_of(input@)[1 + k as int])) by {
                assert(ts.last() == ts[m - 1]);
            };
        }
        clauses.push(cl);
        k += 1;
    }
    proof {
        assert(dimacs_ok(input@));
    }
    Some((n_var, n_clause, clauses))
}

/// The literal a DIMACS integer denotes: `k` is the positive literal of
/// variable `k - 1`, `-k` its negation.
pub open spec fn int_lit(x: int) -> crate::types::Literal {
    if x > 0 {
        crate::types::Literal((2 * (x - 1)) as usize)
    } else {
        crate::types::Literal((2 * (-x - 1) + 1) as usize)
    }
}

/// Converts parsed DIMACS clauses over `n_var` variables into solver
/// clauses, dropping repeated literals within a clause.
///
/// `None` exactly when some integer lies outside `1 ..= n_var` in absolute
/// value, or the variable count is too large for literal codes.  On
/// success, clause `k` holds exactly the literals the integers of input
/// clause `k` denote, each once.
pub fn lits_of_dimacs(n_var: usize, clauses: &Vec<Vec<i64>>) -> (r: Option<
    Vec<Vec<crate::types::Literal>>,
>)
    ensures
        r is Some <==> n_var < usize::MAX / 2 && (forall|k: int, j: int|
            0 <= k < clauses@.len() && 0 <= j < clauses@[k]@.len() ==> 1 <= (
            #[trigger] clauses@[k]@[j]) <= n_var || -(n_var as int) <= clauses@[k]@[j] <= -1),
        r matches Some(cls) ==> {
            &&& cls@.len() == clauses@.len()
            &&& forall|k: int, i: int|
                0 <= k < cls@.len() && 0 <= i < cls@[k]@.len() ==> (#[trigger] cls@[k]@[i]).ok(
                    n_var as int,
                )
            &&& forall|k: int, i1: int, i2: int|
                0 <= k < cls@.len() && 0 <= i1 < i2 < cls@[k]@.len() ==> cls@[k]@[i1] != cls@[k]@[i2]
            &&& forall|k: int, l: crate::types::Literal|
                0 <= k < cls@.len() ==> ((#[trigger] cls@[k]@.contains(l)) <==> exists|j: int|
                    0 <= j < clauses@[k]@.len() && int_lit((#[trigger] clauses@[k]@[j]) as int) == l)
        },
{
    if !(n_var < usize::MAX / 2) {
        return None;
    }
    let nn = clauses.len();
    let mut out: Vec<Vec<crate::types::Literal>> = Vec::new();
    let mut k: usize = 0;
    while k < nn
        invariant
            k <= nn,
            nn == clauses@.len(),
            n_var < usize::MAX / 2,
            out@.len() == k,
            forall|d: int, j: int|
                0 <= d < k && 0 <= j < clauses@[d]@.len() ==> 1 <= (#[trigger] clauses@[d]@[j])
                    <= n_var || -(n_var as int) <= clauses@[d]@[j] <= -1,
            forall|d: int, i: int|
                0 <= d < k && 0 <= i < out@[d]@.len() ==> (#[trigger] out@[d]@[i]).ok(
                    n_var as int,
                ),
            forall|d: int, i1: int, i2: int|
                0 <= d < k && 0 <= i1 < i2 < out@[d]@.len() ==> out@[d]@[i1] != out@[d]@[i2],
            forall|d: int, l: crate::types::Literal|
                0 <= d < k ==> ((#[trigger] out@[d]@.contains(l)) <==> exists|j: int|
                    0 <= j < clauses@[d]@.len() && int_lit((#[trigger] clauses@[d]@[j]) as int) == l),
        decreases nn - k,
    {
        let m = clauses[k].len();
        let mut cl: Vec<crate::types::Literal> = Vec::new();
        let mut j: usize = 0;
        while j < m
            invariant
                j <= m,
                k < nn,
                nn == clauses@.len(),
                m == clauses@[k as int]@.len(),
                n_var < usize::MAX / 2,
                forall|x: int|
                    0 <= x < j ==> 1 <= (#[trigger] clauses@[k as int]@[x]) <= n_var || -(
                    n_var as int) <= clauses@[k as int]@[x] <= -1,
                forall|i: int|
                    0 <= i < cl@.len() ==> (#[trigger] cl@[i]).ok(n_var as int),
                forall|i1: int, i2: int|
                    0 <= i1 < i2 < cl@.len() ==> cl@[i1] != cl@[i2],
                forall|l: crate::types::Literal|
                    (#[trigger] cl@.contains(l)) <==> exists|x: int|
                        0 <= x < j && int_lit((#[trigger] clauses@[k as int]@[x]) as int) == l,
            decreases m - j,
        {
            let x = clauses[k][j];
            let lit = if 1 <= x && (x as u64) <= (n_var as u64) {
                crate::types::Literal::new(crate::types::Var((x - 1) as usize), false)
            } else if -(n_var as i64) <= x && x <= -1 {
                crate::types::Literal::new(crate::types::Var((-x - 1) as usize), true)
            } else {
                proof {
                    assert(!(1 <= clauses@[k as int]@[j as int] <= n_var || -(n_var as int)
                        <= clauses@[k as int]@[j as int] <= -1));
                }
                return None;
            };
            proof {
                assert(lit == int_lit(clauses@[k as int]@[j as int] as int));
            }
            // drop a literal the clause already holds
            let mut seen = false;
            let mut t: usize = 0;
            while t < cl.len() && !seen
                invariant
                    t <= cl@.len(),
                    seen ==> cl@.contains(lit),
                    !seen ==> forall|i: int| 0 <= i < t ==> cl@[i] != lit,
                decreases cl@.len() - t + (if seen { 0int } else { 1int }),
            {
                if cl[t] == lit {
                    seen = true;
                } else {
                    t += 1;
                }
            }
            if !seen {
                let ghost cl_before = cl@;
                cl.push(lit);
                proof {
                    assert(cl@.drop_last() =~= cl_before);
                    assert forall|l: crate::types::Literal| (#[trigger] cl@.contains(l))
                        implies exists|x: int|
                        0 <= x < j + 1 && int_lit((#[trigger] clauses@[k as int]@[x]) as int) == l by {
                        if l == lit {
                            assert(int_lit(clauses@[k as int]@[j as int] as int) == l);
                        } else {
                            assert(cl_before.contains(l)) by {
                                let i = choose|i: int| 0 <= i < cl@.len() && cl@[i] == l;
                                assert(i < cl_before.len());
                                assert(cl_before[i] == l);
                            };
                        }
                    };
                    assert forall|l: crate::types::Literal|
                        (exists|x: int|
                            0 <= x < j + 1 && int_lit((#[trigger] clauses@[k as int]@[x]) as int) == l)
                        implies cl@.contains(l) by {
                        let x = choose|x: int|
                            0 <= x < j + 1 && int_lit(clauses@[k as int]@[x] as int) == l;
                        if x < j {
                            assert(cl_before.contains(l));
                            let i = choose|i: int|
                                0 <= i < cl_before.len() && cl_before[i] == l;
                            assert(cl@[i] == l);
                        } else {
                            assert(cl@.last() == lit);
                        }
                    };
                }
            } else {
                proof {
                    assert forall|l: crate::types::Literal|
                        (exists|x: int|
                            0 <= x < j + 1 && int_lit((#[trigger] clauses@[k as int]@[x]) as int) == l)
                        implies cl@.contains(l) by {
                        let x = choose|x: int|
                            0 <= x < j + 1 && int_lit(clauses@[k as int]@[x] as int) == l;
                        if x == j {
                            assert(l == lit);
                        }
                    };
                }
            }
            j += 1;
        }
        out.push(cl);
        k += 1;
    }
    Some(out)
}

} // verus!
