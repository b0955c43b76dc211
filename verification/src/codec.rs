//! The persisted trace format: one top-level `packages` table, keyed by
//! package name, each entry carrying its storage directory and its ordered
//! list of source/destination pairs.  The writer and the parser are exact
//! inverses: reading back a written trace yields the same value.

use vstd::prelude::*;
use vstd::string::StrSliceExecFns;
use vstd::string::StringExecFns;

use crate::trace::PkgTrace;
use crate::trace::PkgTraceV;
use crate::trace::Trace;

verus! {

// The format's punctuation, as transparent character sequences.
pub open spec fn lit_header() -> Seq<char> {
    seq!['[', 'p', 'a', 'c', 'k', 'a', 'g', 'e', 's', '.', '"']
}

pub open spec fn lit_header_end() -> Seq<char> {
    seq![']', '\n']
}

pub open spec fn lit_directory() -> Seq<char> {
    seq!['d', 'i', 'r', 'e', 'c', 't', 'o', 'r', 'y', ' ', '=', ' ', '"']
}

pub open spec fn lit_newline() -> Seq<char> {
    seq!['\n']
}

pub open spec fn lit_maps_open() -> Seq<char> {
    seq!['m', 'a', 'p', 's', ' ', '=', ' ', '[']
}

pub open spec fn lit_maps_close() -> Seq<char> {
    seq![']', '\n']
}

pub open spec fn lit_pair_open() -> Seq<char> {
    seq!['{', ' ', 's', 'r', 'c', ' ', '=', ' ', '"']
}

pub open spec fn lit_pair_mid() -> Seq<char> {
    seq![',', ' ', 'd', 's', 't', ' ', '=', ' ', '"']
}

pub open spec fn lit_pair_close() -> Seq<char> {
    seq![' ', '}', ',', ' ']
}

/// A string's characters with `\` and `"` escaped by a backslash.
pub open spec fn esc(s: Seq<char>) -> Seq<char>
    decreases s.len(),
{
    if s.len() == 0 {
        Seq::empty()
    } else {
        let head: Seq<char> = if s[0] == '\\' {
            seq!['\\', '\\']
        } else if s[0] == '"' {
            seq!['\\', '"']
        } else {
            seq![s[0]]
        };
        head + esc(s.drop_first())
    }
}

/// An escaped string followed by its closing quote.
pub open spec fn wq(s: Seq<char>) -> Seq<char> {
    esc(s) + seq!['"']
}

/// One written pair: `{ src = "...", dst = "..." }, `.
pub open spec fn w_pair(p: (Seq<char>, Seq<char>)) -> Seq<char> {
    lit_pair_open() + wq(p.0) + lit_pair_mid() + wq(p.1) + lit_pair_close()
}

/// A written pair list, each pair followed by its separator.
pub open spec fn w_pairs(ps: Seq<(Seq<char>, Seq<char>)>) -> Seq<char>
    decreases ps.len(),
{
    if ps.len() == 0 {
        Seq::empty()
    } else {
        w_pair(ps[0]) + w_pairs(ps.drop_first())
    }
}

/// One written package entry.
pub open spec fn w_pkg(name: Seq<char>, t: PkgTraceV) -> Seq<char> {
    lit_header() + wq(name) + lit_header_end() + lit_directory() + wq(t.directory) + lit_newline()
        + lit_maps_open() + w_pairs(t.maps) + lit_maps_close()
}

/// The whole written document.
pub open spec fn w_trace(ps: Seq<(Seq<char>, PkgTraceV)>) -> Seq<char>
    decreases ps.len(),
{
    if ps.len() == 0 {
        Seq::empty()
    } else {
        w_pkg(ps[0].0, ps[0].1) + w_trace(ps.drop_first())
    }
}

/// Consumes `lit` from the front of `s`.
pub open spec fn expect(s: Seq<char>, lit: Seq<char>) -> Option<Seq<char>> {
    if s.len() >= lit.len() && s.take(lit.len() as int) == lit {
        Some(s.skip(lit.len() as int))
    } else {
        None
    }
}

/// Consumes an escaped string up to and including its closing quote,
/// returning the unescaped content and the remainder.
pub open spec fn p_str(s: Seq<char>) -> Option<(Seq<char>, Seq<char>)>
    decreases s.len(),
{
    if s.len() == 0 {
        None
    } else if s[0] == '"' {
        Some((Seq::empty(), s.drop_first()))
    } else if s[0] == '\\' {
        if s.len() < 2 {
            None
        } else {
            match p_str(s.skip(2)) {
                Some((c, r)) => Some((seq![s[1]] + c, r)),
                None => None,
            }
        }
    } else {
        match p_str(s.drop_first()) {
            Some((c, r)) => Some((seq![s[0]] + c, r)),
            None => None,
        }
    }
}

/// What `p_str` leaves is strictly shorter.
pub proof fn lemma_p_str_shrinks(s: Seq<char>)
    ensures
        p_str(s) matches Some(cr) ==> cr.1.len() < s.len(),
    decreases s.len(),
{
    if s.len() > 0 && s[0] != '"' {
        if s[0] == '\\' {
            if s.len() >= 2 {
                lemma_p_str_shrinks(s.skip(2));
            }
        } else {
            lemma_p_str_shrinks(s.drop_first());
        }
    }
}

/// Consumes one pair.
pub open spec fn p_pair(s: Seq<char>) -> Option<((Seq<char>, Seq<char>), Seq<char>)> {
    match expect(s, lit_pair_open()) {
        None => None,
        Some(s1) => match p_str(s1) {
            None => None,
            Some((src, s2)) => match expect(s2, lit_pair_mid()) {
                None => None,
                Some(s3) => match p_str(s3) {
                    None => None,
                    Some((dst, s4)) => match expect(s4, lit_pair_close()) {
                        None => None,
                        Some(s5) => Some(((src, dst), s5)),
                    },
                },
            },
        },
    }
}

/// What `p_pair` leaves is strictly shorter.
pub proof fn lemma_p_pair_shrinks(s: Seq<char>)
    ensures
        p_pair(s) matches Some(pr) ==> pr.1.len() < s.len(),
{
    match expect(s, lit_pair_open()) {
        None => {},
        Some(s1) => {
            lemma_p_str_shrinks(s1);
            match p_str(s1) {
                None => {},
                Some((src, s2)) => {
                    match expect(s2, lit_pair_mid()) {
                        None => {},
                        Some(s3) => {
                            lemma_p_str_shrinks(s3);
                        },
                    }
                },
            }
        },
    }
}

/// Consumes pairs until the closing bracket.
pub open spec fn p_pairs(s: Seq<char>) -> Option<(Seq<(Seq<char>, Seq<char>)>, Seq<char>)>
    decreases s.len(),
    via p_pairs_decreases
{
    match expect(s, lit_maps_close()) {
        Some(r) => Some((Seq::empty(), r)),
        None => match p_pair(s) {
            None => None,
            Some((p, s1)) => match p_pairs(s1) {
                None => None,
                Some((ps, r)) => Some((seq![p] + ps, r)),
            },
        },
    }
}

#[via_fn]
proof fn p_pairs_decreases(s: Seq<char>) {
    lemma_p_pair_shrinks(s);
}

/// Consumes one package entry.
pub open spec fn p_pkg(s: Seq<char>) -> Option<((Seq<char>, PkgTraceV), Seq<char>)> {
    match expect(s, lit_header()) {
        None => None,
        Some(s1) => match p_str(s1) {
            None => None,
            Some((name, s2)) => match expect(s2, lit_header_end()) {
                None => None,
                Some(s3) => match expect(s3, lit_directory()) {
                    None => None,
                    Some(s4) => match p_str(s4) {
                        None => None,
                        Some((dir, s5)) => match expect(s5, lit_newline()) {
                            None => None,
                            Some(s6) => match expect(s6, lit_maps_open()) {
                                None => None,
                                Some(s7) => match p_pairs(s7) {
                                    None => None,
                                    Some((ps, r)) => Some(
                                        ((name, PkgTraceV { directory: dir, maps: ps }), r),
                                    ),
                                },
                            },
                        },
                    },
                },
            },
        },
    }
}

/// What `p_pairs` leaves is no longer than its input.
pub proof fn lemma_p_pairs_shrinks(s: Seq<char>)
    ensures
        p_pairs(s) matches Some(pr) ==> pr.1.len() < s.len(),
    decreases s.len(),
{
    if expect(s, lit_maps_close()) is None {
        lemma_p_pair_shrinks(s);
        match p_pair(s) {
            None => {},
            Some((p, s1)) => {
                lemma_p_pairs_shrinks(s1);
            },
        }
    }
}

/// What `p_pkg` leaves is strictly shorter.
pub proof fn lemma_p_pkg_shrinks(s: Seq<char>)
    ensures
        p_pkg(s) matches Some(pr) ==> pr.1.len() < s.len(),
{
    match expect(s, lit_header()) {
        None => {},
        Some(s1) => {
            lemma_p_str_shrinks(s1);
            match p_str(s1) {
                None => {},
                Some((name, s2)) => {
                    match expect(s2, lit_header_end()) {
                        None => {},
                        Some(s3) => match expect(s3, lit_directory()) {
                            None => {},
                            Some(s4) => {
                                lemma_p_str_shrinks(s4);
                                match p_str(s4) {
                                    None => {},
                                    Some((dir, s5)) => match expect(s5, lit_newline()) {
                                        None => {},
                                        Some(s6) => match expect(s6, lit_maps_open()) {
                                            None => {},
                                            Some(s7) => {
                                                lemma_p_pairs_shrinks(s7);
                                            },
                                        },
                                    },
                                }
                            },
                        },
                    }
                },
            }
        },
    }
}

/// Consumes the whole document.
pub open spec fn p_trace(s: Seq<char>) -> Option<Seq<(Seq<char>, PkgTraceV)>>
    decreases s.len(),
    via p_trace_decreases
{
    if s.len() == 0 {
        Some(Seq::empty())
    } else {
        match p_pkg(s) {
            None => None,
            Some((e, r)) => match p_trace(r) {
                None => None,
                Some(ps) => Some(seq![e] + ps),
            },
        }
    }
}

#[via_fn]
proof fn p_trace_decreases(s: Seq<char>) {
    lemma_p_pkg_shrinks(s);
}

/// Consuming a literal that was just written finds exactly it.
proof fn lemma_expect_inv(lit: Seq<char>, rest: Seq<char>)
    ensures
        expect(lit + rest, lit) == Some(rest),
{
    assert((lit + rest).take(lit.len() as int) =~= lit);
    assert((lit + rest).skip(lit.len() as int) =~= rest);
}

/// Parsing a written string finds exactly it.
proof fn lemma_p_str_inv(x: Seq<char>, rest: Seq<char>)
    ensures
        p_str(wq(x) + rest) == Some((x, rest)),
    decreases x.len(),
{
    let s = wq(x) + rest;
    if x.len() == 0 {
        assert(s =~= seq!['"'] + rest);
        assert(s[0] == '"');
        assert(s.drop_first() =~= rest);
    } else {
        lemma_p_str_inv(x.drop_first(), rest);
        if x[0] == '\\' {
            assert(s =~= seq!['\\', '\\'] + (wq(x.drop_first()) + rest));
            assert(s[0] == '\\' && s[1] == '\\');
            assert(s.skip(2) =~= wq(x.drop_first()) + rest);
            assert(seq![s[1]] + x.drop_first() =~= x);
        } else if x[0] == '"' {
            assert(s =~= seq!['\\', '"'] + (wq(x.drop_first()) + rest));
            assert(s[0] == '\\' && s[1] == '"');
            assert(s.skip(2) =~= wq(x.drop_first()) + rest);
            assert(seq![s[1]] + x.drop_first() =~= x);
        } else {
            assert(s =~= seq![x[0]] + (wq(x.drop_first()) + rest));
            assert(s[0] == x[0]);
            assert(s[0] != '"' && s[0] != '\\');
            assert(s.drop_first() =~= wq(x.drop_first()) + rest);
            assert(seq![s[0]] + x.drop_first() =~= x);
        }
    }
}

/// Parsing a written pair finds exactly it.
proof fn lemma_p_pair_inv(p: (Seq<char>, Seq<char>), rest: Seq<char>)
    ensures
        p_pair(w_pair(p) + rest) == Some((p, rest)),
{
    let s = w_pair(p) + rest;
    assert(s =~= lit_pair_open() + (wq(p.0) + (lit_pair_mid() + (wq(p.1) + (lit_pair_close()
        + rest)))));
    lemma_expect_inv(lit_pair_open(), wq(p.0) + (lit_pair_mid() + (wq(p.1) + (lit_pair_close()
        + rest))));
    lemma_p_str_inv(p.0, lit_pair_mid() + (wq(p.1) + (lit_pair_close() + rest)));
    lemma_expect_inv(lit_pair_mid(), wq(p.1) + (lit_pair_close() + rest));
    lemma_p_str_inv(p.1, lit_pair_close() + rest);
    lemma_expect_inv(lit_pair_close(), rest);
}

/// Parsing a written pair list finds exactly it.
proof fn lemma_p_pairs_inv(ps: Seq<(Seq<char>, Seq<char>)>, rest: Seq<char>)
    requires
        expect(rest, lit_maps_close()) is Some,
    ensures
        p_pairs(w_pairs(ps) + rest) matches Some(pr) && pr.0 == ps && expect(
            rest,
            lit_maps_close(),
        ) == Some(pr.1),
    decreases ps.len(),
{
    let s = w_pairs(ps) + rest;
    if ps.len() == 0 {
        assert(s =~= rest);
    } else {
        assert(s =~= w_pair(ps[0]) + (w_pairs(ps.drop_first()) + rest));
        // a pair begins with `{`, not `]`: the close-bracket test fails
        assert(expect(s, lit_maps_close()) is None) by {
            assert(s[0] == '{');
            if expect(s, lit_maps_close()) is Some {
                assert(s.take(lit_maps_close().len() as int)[0] == s[0]);
            }
        }
        lemma_p_pair_inv(ps[0], w_pairs(ps.drop_first()) + rest);
        lemma_p_pairs_inv(ps.drop_first(), rest);
        let inner = p_pairs(w_pairs(ps.drop_first()) + rest);
        assert(seq![ps[0]] + inner.unwrap().0 =~= ps);
    }
}

/// Parsing a written package entry finds exactly it.
proof fn lemma_p_pkg_inv(name: Seq<char>, t: PkgTraceV, rest: Seq<char>)
    ensures
        p_pkg(w_pkg(name, t) + rest) == Some(((name, t), rest)),
{
    let s = w_pkg(name, t) + rest;
    let r7 = w_pairs(t.maps) + (lit_maps_close() + rest);
    let r6 = lit_maps_open() + r7;
    let r5 = lit_newline() + r6;
    let r4 = wq(t.directory) + r5;
    let r3 = lit_directory() + r4;
    let r2 = lit_header_end() + r3;
    let r1 = wq(name) + r2;
    assert(s =~= lit_header() + r1);
    lemma_expect_inv(lit_header(), r1);
    lemma_p_str_inv(name, r2);
    lemma_expect_inv(lit_header_end(), r3);
    lemma_expect_inv(lit_directory(), r4);
    lemma_p_str_inv(t.directory, r5);
    lemma_expect_inv(lit_newline(), r6);
    lemma_expect_inv(lit_maps_open(), r7);
    lemma_expect_inv(lit_maps_close(), rest);
    lemma_p_pairs_inv(t.maps, lit_maps_close() + rest);
}

/// One more character extends the escape by its own escape.
proof fn lemma_esc_snoc(x: Seq<char>, c: char)
    ensures
        esc(x.push(c)) == esc(x) + (if c == '\\' {
            seq!['\\', '\\']
        } else if c == '"' {
            seq!['\\', '"']
        } else {
            seq![c]
        }),
    decreases x.len(),
{
    let e: Seq<char> = if c == '\\' {
        seq!['\\', '\\']
    } else if c == '"' {
        seq!['\\', '"']
    } else {
        seq![c]
    };
    if x.len() == 0 {
        assert(x.push(c)[0] == c);
        assert(x.push(c).drop_first() =~= Seq::<char>::empty());
        assert(esc(Seq::<char>::empty()) == Seq::<char>::empty());
        assert(esc(x.push(c)) =~= e);
        assert(esc(x) + e =~= e);
    } else {
        assert(x.push(c)[0] == x[0]);
        assert(x.push(c).drop_first() =~= x.drop_first().push(c));
        lemma_esc_snoc(x.drop_first(), c);
        let h: Seq<char> = if x[0] == '\\' {
            seq!['\\', '\\']
        } else if x[0] == '"' {
            seq!['\\', '"']
        } else {
            seq![x[0]]
        };
        assert(esc(x.push(c)) == h + (esc(x.drop_first()) + e));
        assert(h + (esc(x.drop_first()) + e) =~= (h + esc(x.drop_first())) + e);
    }
}

/// Growing the written pair list by one pair appends its text.
proof fn lemma_w_pairs_snoc(ps: Seq<(Seq<char>, Seq<char>)>, p: (Seq<char>, Seq<char>))
    ensures
        w_pairs(ps.push(p)) == w_pairs(ps) + w_pair(p),
    decreases ps.len(),
{
    if ps.len() == 0 {
        assert(ps.push(p)[0] == p);
        assert(ps.push(p).drop_first() =~= Seq::<(Seq<char>, Seq<char>)>::empty());
        assert(w_pairs(Seq::<(Seq<char>, Seq<char>)>::empty()) == Seq::<char>::empty());
        assert(w_pairs(ps.push(p)) =~= w_pair(p));
        assert(w_pairs(ps) + w_pair(p) =~= w_pair(p));
    } else {
        assert(ps.push(p)[0] == ps[0]);
        assert(ps.push(p).drop_first() =~= ps.drop_first().push(p));
        lemma_w_pairs_snoc(ps.drop_first(), p);
        assert(w_pair(ps[0]) + (w_pairs(ps.drop_first()) + w_pair(p)) =~= (w_pair(ps[0]) + w_pairs(
            ps.drop_first(),
        )) + w_pair(p));
    }
}

/// Growing the written document by one package appends its text.
proof fn lemma_w_trace_snoc(ps: Seq<(Seq<char>, PkgTraceV)>, e: (Seq<char>, PkgTraceV))
    ensures
        w_trace(ps.push(e)) == w_trace(ps) + w_pkg(e.0, e.1),
    decreases ps.len(),
{
    if ps.len() == 0 {
        assert(ps.push(e)[0] == e);
        assert(ps.push(e).drop_first() =~= Seq::<(Seq<char>, PkgTraceV)>::empty());
        assert(w_trace(Seq::<(Seq<char>, PkgTraceV)>::empty()) == Seq::<char>::empty());
        assert(w_trace(ps.push(e)) =~= w_pkg(e.0, e.1));
        assert(w_trace(ps) + w_pkg(e.0, e.1) =~= w_pkg(e.0, e.1));
    } else {
        assert(ps.push(e)[0] == ps[0]);
        assert(ps.push(e).drop_first() =~= ps.drop_first().push(e));
        lemma_w_trace_snoc(ps.drop_first(), e);
        assert(w_pkg(ps[0].0, ps[0].1) + (w_trace(ps.drop_first()) + w_pkg(e.0, e.1)) =~= (w_pkg(
            ps[0].0,
            ps[0].1,
        ) + w_trace(ps.drop_first())) + w_pkg(e.0, e.1));
    }
}

/// Appends the escaped form of `s` and a closing quote to `out`.
fn append_quoted(out: &mut String, s: &str)
    ensures
        final(out)@ == old(out)@ + wq(s@),
{
    let n = s.unicode_len();
    let mut i: usize = 0;
    proof {
        assert(esc(s@.take(0)) =~= Seq::<char>::empty());
        assert(out@ + esc(s@.take(0)) =~= out@);
    }
    while i < n
        invariant
            i <= n,
            n == s@.len(),
            out@ == old(out)@ + esc(s@.take(i as int)),
        decreases n - i,
    {
        let c = s.get_char(i);
        proof {
            lemma_esc_snoc(s@.take(i as int), s@[i as int]);
            assert(s@.take(i + 1) =~= s@.take(i as int).push(s@[i as int]));
        }
        if c == '\\' {
            out.append("\\\\");
            proof {
                reveal_strlit("\\\\");
                assert("\\\\"@ =~= seq!['\\', '\\']);
                assert(out@ =~= old(out)@ + esc(s@.take(i + 1)));
            }
        } else if c == '"' {
            out.append("\\\"");
            proof {
                reveal_strlit("\\\"");
                assert("\\\""@ =~= seq!['\\', '"']);
                assert(out@ =~= old(out)@ + esc(s@.take(i + 1)));
            }
        } else {
            out.append(s.substring_char(i, i + 1));
            proof {
                assert(s@.subrange(i as int, i + 1) =~= seq![s@[i as int]]);
                assert(out@ =~= old(out)@ + esc(s@.take(i + 1)));
            }
        }
        i = i + 1;
    }
    out.append("\"");
    proof {
        reveal_strlit("\"");
        assert("\""@ =~= seq!['"']);
        assert(s@.take(n as int) =~= s@);
        assert(out@ =~= old(out)@ + wq(s@));
    }
}

/// A parse failure: the text is not a written trace document, or it binds
/// a package name or a source twice.
#[derive(Debug, PartialEq, Eq)]
pub enum TraceParseError {
    Malformed,
    Duplicate,
}

/// Consumes the literal `lit` from the front of `s`.
fn expect_exec<'a>(s: &'a str, lit: &str) -> (r: Option<&'a str>)
    ensures
        match r {
            Some(rest) => expect(s@, lit@) == Some(rest@),
            None => expect(s@, lit@) is None,
        },
{
    let n = s.unicode_len();
    let m = lit.unicode_len();
    if n < m {
        return None;
    }
    let mut j: usize = 0;
    while j < m
        invariant
            j <= m <= n,
            n == s@.len(),
            m == lit@.len(),
            forall|l: int| 0 <= l < j ==> s@[l] == lit@[l],
        decreases m - j,
    {
        if s.get_char(j) != lit.get_char(j) {
            proof {
                assert(s@.take(m as int)[j as int] != lit@[j as int]);
            }
            return None;
        }
        j = j + 1;
    }
    proof {
        assert(s@.take(m as int) =~= lit@);
    }
    Some(s.substring_char(m, n))
}

/// Consumes an escaped string and its closing quote, unescaping it.
fn parse_str_rec<'a>(s: &'a str) -> (r: Option<(String, &'a str)>)
    ensures
        match r {
            Some(cr) => p_str(s@) == Some((cr.0@, cr.1@)),
            None => p_str(s@) is None,
        },
    decreases s@.len(),
{
    let n = s.unicode_len();
    if n == 0 {
        return None;
    }
    let c0 = s.get_char(0);
    if c0 == '"' {
        let rest = s.substring_char(1, n);
        proof {
            assert(rest@ =~= s@.drop_first());
        }
        return Some((String::new(), rest));
    }
    if c0 == '\\' {
        if n < 2 {
            return None;
        }
        let tail = s.substring_char(2, n);
        proof {
            assert(tail@ =~= s@.skip(2));
        }
        match parse_str_rec(tail) {
            None => None,
            Some((c, rest)) => {
                let mut out = String::from_str(s.substring_char(1, 2));
                out.append(c.as_str());
                proof {
                    assert(s@.subrange(1, 2) =~= seq![s@[1]]);
                    assert(out@ =~= seq![s@[1]] + c@);
                }
                Some((out, rest))
            },
        }
    } else {
        let tail = s.substring_char(1, n);
        proof {
            assert(tail@ =~= s@.drop_first());
        }
        match parse_str_rec(tail) {
            None => None,
            Some((c, rest)) => {
                let mut out = String::from_str(s.substring_char(0, 1));
                out.append(c.as_str());
                proof {
                    assert(s@.subrange(0, 1) =~= seq![s@[0]]);
                    assert(out@ =~= seq![s@[0]] + c@);
                }
                Some((out, rest))
            },
        }
    }
}

/// Consumes one pair.
fn parse_pair_rec<'a>(s: &'a str) -> (r: Option<((String, String), &'a str)>)
    ensures
        match r {
            Some(pr) => p_pair(s@) == Some(((pr.0.0@, pr.0.1@), pr.1@)),
            None => p_pair(s@) is None,
        },
{
    proof {
        reveal_strlit("{ src = \"");
        assert("{ src = \""@ =~= lit_pair_open());
        reveal_strlit(", dst = \"");
        assert(", dst = \""@ =~= lit_pair_mid());
        reveal_strlit(" }, ");
        assert(" }, "@ =~= lit_pair_close());
    }
    let s1 = match expect_exec(s, "{ src = \"") {
        None => {
            return None;
        },
        Some(x) => x,
    };
    let (src, s2) = match parse_str_rec(s1) {
        None => {
            return None;
        },
        Some(x) => x,
    };
    let s3 = match expect_exec(s2, ", dst = \"") {
        None => {
            return None;
        },
        Some(x) => x,
    };
    let (dst, s4) = match parse_str_rec(s3) {
        None => {
            return None;
        },
        Some(x) => x,
    };
    let s5 = match expect_exec(s4, " }, ") {
        None => {
            return None;
        },
        Some(x) => x,
    };
    Some(((src, dst), s5))
}

/// Consumes pairs until the closing bracket.
fn parse_pairs_rec<'a>(s: &'a str) -> (r: Option<(Vec<(String, String)>, &'a str)>)
    ensures
        match r {
            Some(pr) => p_pairs(s@) == Some(
                (pr.0@.map_values(|p: (String, String)| (p.0@, p.1@)), pr.1@),
            ),
            None => p_pairs(s@) is None,
        },
    decreases s@.len(),
{
    proof {
        reveal_strlit("]\n");
        assert("]\n"@ =~= lit_maps_close());
    }
    match expect_exec(s, "]\n") {
        Some(rest) => {
            let v: Vec<(String, String)> = Vec::new();
            proof {
                assert(v@.map_values(|p: (String, String)| (p.0@, p.1@)) =~= Seq::<
                    (Seq<char>, Seq<char>),
                >::empty());
            }
            return Some((v, rest));
        },
        None => {
        },
    }
    let (p, s1) = match parse_pair_rec(s) {
        None => {
            return None;
        },
        Some(x) => x,
    };
    proof {
        lemma_p_pair_shrinks(s@);
    }
    match parse_pairs_rec(s1) {
        None => None,
        Some((mut ps, rest)) => {
            let ghost before = ps@;
            ps.insert(0, p);
            proof {
                assert(ps@.map_values(|q: (String, String)| (q.0@, q.1@)) =~= seq![(p.0@, p.1@)]
                    + before.map_values(|q: (String, String)| (q.0@, q.1@)));
            }
            Some((ps, rest))
        },
    }
}

/// Consumes one package entry.
fn parse_pkg_rec<'a>(s: &'a str) -> (r: Option<((String, PkgTrace), &'a str)>)
    ensures
        match r {
            Some(pr) => p_pkg(s@) == Some(((pr.0.0@, pr.0.1@), pr.1@)),
            None => p_pkg(s@) is None,
        },
{
    proof {
        reveal_strlit("[packages.\"");
        assert("[packages.\""@ =~= lit_header());
        reveal_strlit("]\n");
        assert("]\n"@ =~= lit_header_end());
        reveal_strlit("directory = \"");
        assert("directory = \""@ =~= lit_directory());
        reveal_strlit("\n");
        assert("\n"@ =~= lit_newline());
        reveal_strlit("maps = [");
        assert("maps = ["@ =~= lit_maps_open());
    }
    let s1 = match expect_exec(s, "[packages.\"") {
        None => {
            return None;
        },
        Some(x) => x,
    };
    let (name, s2) = match parse_str_rec(s1) {
        None => {
            return None;
        },
        Some(x) => x,
    };
    let s3 = match expect_exec(s2, "]\n") {
        None => {
            return None;
        },
        Some(x) => x,
    };
    let s4 = match expect_exec(s3, "directory = \"") {
        None => {
            return None;
        },
        Some(x) => x,
    };
    let (dir, s5) = match parse_str_rec(s4) {
        None => {
            return None;
        },
        Some(x) => x,
    };
    let s6 = match expect_exec(s5, "\n") {
        None => {
            return None;
        },
        Some(x) => x,
    };
    let s7 = match expect_exec(s6, "maps = [") {
        None => {
            return None;
        },
        Some(x) => x,
    };
    match parse_pairs_rec(s7) {
        None => None,
        Some((ps, rest)) => {
            let t = PkgTrace { directory: dir, maps: ps };
            Some(((name, t), rest))
        },
    }
}

/// Consumes the whole document.
fn parse_trace_rec<'a>(s: &'a str) -> (r: Option<Vec<(String, PkgTrace)>>)
    ensures
        match r {
            Some(v) => p_trace(s@) == Some(
                v@.map_values(|p: (String, PkgTrace)| (p.0@, p.1@)),
            ),
            None => p_trace(s@) is None,
        },
    decreases s@.len(),
{
    let n = s.unicode_len();
    if n == 0 {
        let v: Vec<(String, PkgTrace)> = Vec::new();
        proof {
            assert(v@.map_values(|p: (String, PkgTrace)| (p.0@, p.1@)) =~= Seq::<
                (Seq<char>, PkgTraceV),
            >::empty());
        }
        return Some(v);
    }
    let (e, rest) = match parse_pkg_rec(s) {
        None => {
            return None;
        },
        Some(x) => x,
    };
    proof {
        lemma_p_pkg_shrinks(s@);
    }
    match parse_trace_rec(rest) {
        None => None,
        Some(mut v) => {
            let ghost before = v@;
            v.insert(0, e);
            proof {
                assert(v@.map_values(|p: (String, PkgTrace)| (p.0@, p.1@)) =~= seq![(e.0@, e.1@)]
                    + before.map_values(|p: (String, PkgTrace)| (p.0@, p.1@)));
            }
            Some(v)
        },
    }
}

/// Whether each parsed package name is new and each package's sources are
/// pairwise distinct.
pub open spec fn spec_packages_wf(ps: Seq<(Seq<char>, PkgTraceV)>) -> bool {
    &&& forall|p: int, q: int| 0 <= p < q < ps.len() ==> ps[p].0 != ps[q].0
    &&& forall|i: int|
        0 <= i < ps.len() ==> forall|p: int, q: int|
            0 <= p < q < (#[trigger] ps[i]).1.maps.len() ==> ps[i].1.maps[p].0 != ps[i].1.maps[q].0
}

/// Whether the parsed packages are well formed, checked pairwise.
fn packages_wf(v: &Vec<(String, PkgTrace)>) -> (r: bool)
    ensures
        r == spec_packages_wf(v@.map_values(|p: (String, PkgTrace)| (p.0@, p.1@))),
{
    let ghost ps = v@.map_values(|p: (String, PkgTrace)| (p.0@, p.1@));
    let n = v.len();
    let mut i: usize = 0;
    while i < n
        invariant
            i <= n,
            n == ps.len(),
            ps == v@.map_values(|p: (String, PkgTrace)| (p.0@, p.1@)),
            forall|p: int, q: int| 0 <= p < q < i ==> ps[p].0 != ps[q].0,
            forall|l: int|
                0 <= l < i ==> forall|p: int, q: int|
                    0 <= p < q < (#[trigger] ps[l]).1.maps.len() ==> ps[l].1.maps[p].0
                        != ps[l].1.maps[q].0,
        decreases n - i,
    {
        let mut j: usize = 0;
        while j < i
            invariant
                j <= i < n,
                n == ps.len(),
                ps == v@.map_values(|p: (String, PkgTrace)| (p.0@, p.1@)),
                forall|l: int| 0 <= l < j ==> ps[l].0 != ps[i as int].0,
            decreases i - j,
        {
            if v[j].0.eq(&v[i].0) {
                proof {
                    assert(ps[j as int].0 == ps[i as int].0);
                }
                return false;
            }
            j = j + 1;
        }
        let m = v[i].1.maps.len();
        let mut p: usize = 0;
        while p < m
            invariant
                p <= m,
                i < n,
                n == ps.len(),
                m == ps[i as int].1.maps.len(),
                ps == v@.map_values(|x: (String, PkgTrace)| (x.0@, x.1@)),
                forall|a: int, b: int| 0 <= a < b < p ==> ps[i as int].1.maps[a].0 != ps[
                    i as int].1.maps[b].0,
            decreases m - p,
        {
            let mut q: usize = 0;
            while q < p
                invariant
                    q <= p < m,
                    i < n,
                    n == ps.len(),
                    m == ps[i as int].1.maps.len(),
                    ps == v@.map_values(|x: (String, PkgTrace)| (x.0@, x.1@)),
                    forall|a: int| 0 <= a < q ==> ps[i as int].1.maps[a].0 != ps[i as int].1.maps[
                        p as int].0,
                decreases p - q,
            {
                if v[i].1.maps[q].0.eq(&v[i].1.maps[p].0) {
                    proof {
                        assert(ps[i as int].1.maps[q as int].0 == ps[i as int].1.maps[p as int].0);
                    }
                    return false;
                }
                q = q + 1;
            }
            p = p + 1;
        }
        proof {
            assert(forall|a: int, b: int|
                0 <= a < b < ps[i as int].1.maps.len() ==> ps[i as int].1.maps[a].0 != ps[
                    i as int].1.maps[b].0);
        }
        i = i + 1;
    }
    true
}

impl Trace {
    /// Writes the whole persisted state in its on-disk format.
    pub fn to_toml_string(&self) -> (r: String)
        ensures
            r@ == w_trace(self@.packages),
    {
        let mut out = String::new();
        let n = self.packages.len();
        let mut i: usize = 0;
        proof {
            assert(self@.packages.take(0) =~= Seq::<(Seq<char>, PkgTraceV)>::empty());
            assert(out@ =~= w_trace(self@.packages.take(0)));
        }
        while i < n
            invariant
                i <= n,
                n == self@.packages.len(),
                out@ == w_trace(self@.packages.take(i as int)),
            decreases n - i,
        {
            proof {
                reveal_strlit("[packages.\"");
                assert("[packages.\""@ =~= lit_header());
                reveal_strlit("]\n");
                assert("]\n"@ =~= lit_header_end());
                assert("]\n"@ =~= lit_maps_close());
                reveal_strlit("directory = \"");
                assert("directory = \""@ =~= lit_directory());
                reveal_strlit("\n");
                assert("\n"@ =~= lit_newline());
                reveal_strlit("maps = [");
                assert("maps = ["@ =~= lit_maps_open());
                lemma_w_trace_snoc(self@.packages.take(i as int), self@.packages[i as int]);
                assert(self@.packages.take(i + 1) =~= self@.packages.take(i as int).push(
                    self@.packages[i as int],
                ));
            }
            out.append("[packages.\"");
            append_quoted(&mut out, self.packages[i].0.as_str());
            out.append("]\n");
            out.append("directory = \"");
            append_quoted(&mut out, self.packages[i].1.directory.as_str());
            out.append("\n");
            out.append("maps = [");
            let m = self.packages[i].1.maps.len();
            let mut j: usize = 0;
            let ghost outmid = out@;
            proof {
                assert(self@.packages[i as int].1.maps.take(0) =~= Seq::<
                    (Seq<char>, Seq<char>),
                >::empty());
                assert(out@ =~= outmid + w_pairs(self@.packages[i as int].1.maps.take(0)));
            }
            while j < m
                invariant
                    j <= m,
                    i < n,
                    n == self@.packages.len(),
                    m == self@.packages[i as int].1.maps.len(),
                    out@ == outmid + w_pairs(self@.packages[i as int].1.maps.take(j as int)),
                decreases m - j,
            {
                proof {
                    reveal_strlit("{ src = \"");
                    assert("{ src = \""@ =~= lit_pair_open());
                    reveal_strlit(", dst = \"");
                    assert(", dst = \""@ =~= lit_pair_mid());
                    reveal_strlit(" }, ");
                    assert(" }, "@ =~= lit_pair_close());
                    lemma_w_pairs_snoc(
                        self@.packages[i as int].1.maps.take(j as int),
                        self@.packages[i as int].1.maps[j as int],
                    );
                    assert(self@.packages[i as int].1.maps.take(j + 1)
                        =~= self@.packages[i as int].1.maps.take(j as int).push(
                        self@.packages[i as int].1.maps[j as int],
                    ));
                }
                out.append("{ src = \"");
                append_quoted(&mut out, self.packages[i].1.maps[j].0.as_str());
                out.append(", dst = \"");
                append_quoted(&mut out, self.packages[i].1.maps[j].1.as_str());
                out.append(" }, ");
                j = j + 1;
            }
            out.append("]\n");
            proof {
                assert(self@.packages[i as int].1.maps.take(m as int)
                    =~= self@.packages[i as int].1.maps);
                assert(out@ =~= w_trace(self@.packages.take(i + 1)));
            }
            i = i + 1;
        }
        proof {
            assert(self@.packages.take(n as int) =~= self@.packages);
        }
        out
    }

    /// Reads a written document back.  Succeeds exactly on a well-formed
    /// document whose package names and per-package sources are unique.
    pub fn from_toml_string(s: &str) -> (r: Result<Trace, TraceParseError>)
        ensures
            match r {
                Ok(t) => {
                    &&& p_trace(s@) == Some(t@.packages)
                    &&& t.wf()
                    &&& spec_packages_wf(t@.packages)
                },
                Err(e) => match e {
                    TraceParseError::Malformed => p_trace(s@) is None,
                    TraceParseError::Duplicate => p_trace(s@) matches Some(ps)
                        && !spec_packages_wf(ps),
                },
            },
    {
        let v = match parse_trace_rec(s) {
            None => {
                return Err(TraceParseError::Malformed);
            },
            Some(v) => v,
        };
        if !packages_wf(&v) {
            return Err(TraceParseError::Duplicate);
        }
        let t = Trace { packages: v };
        proof {
            let ghost ps = v@.map_values(|p: (String, PkgTrace)| (p.0@, p.1@));
            assert(t@.packages == ps);
            assert forall|i: int|
                0 <= i < t.packages@.len() implies (#[trigger] t.packages@[i]).1.wf() by {
                assert(ps[i] == (t.packages@[i].0@, t.packages@[i].1@));
                assert(forall|p: int, q: int|
                    0 <= p < q < ps[i].1.maps.len() ==> ps[i].1.maps[p].0 != ps[i].1.maps[q].0);
            }
        }
        Ok(t)
    }
}

/// Law (round trip): parsing a written document yields exactly the trace
/// that was written.
pub proof fn lemma_trace_round_trip(ps: Seq<(Seq<char>, PkgTraceV)>)
    ensures
        p_trace(w_trace(ps)) == Some(ps),
    decreases ps.len(),
{
    if ps.len() == 0 {
        assert(w_trace(ps).len() == 0);
    } else {
        let s = w_trace(ps);
        assert(s =~= w_pkg(ps[0].0, ps[0].1) + w_trace(ps.drop_first()));
        assert(s.len() > 0) by {
            assert(w_pkg(ps[0].0, ps[0].1)[0] == '[');
        }
        lemma_p_pkg_inv(ps[0].0, ps[0].1, w_trace(ps.drop_first()));
        lemma_trace_round_trip(ps.drop_first());
        assert((ps[0].0, ps[0].1) == ps[0]);
        assert(seq![ps[0]] + ps.drop_first() =~= ps);
    }
}

} // verus!
