//! The text format of a road network: line `i` lists the edges of node `i`
//! as comma-separated `neighbor:weight` tokens.
use crate::graph::{adjacency, build_from_edges, built_from, lemma_built_well_formed, well_formed, RoadGraph};
use vstd::prelude::*;
use vstd::string::StringSliceAdditionalSpecFns;

verus! {

/// The largest node index a network may use.
pub const MAX_NODE: usize = 4294967295;

/// A token whose numbers do not parse as unsigned integers, or a node index
/// above `MAX_NODE`.
#[derive(Debug, Clone, Copy, PartialEq, Eq, Structural)]
pub enum ParseError {
    FormatError,
}

/// The pieces of `s` between the separators `c`; there is always at least one.
pub open spec fn split_spec(s: Seq<u8>, c: u8) -> Seq<Seq<u8>>
    decreases s.len(),
{
    if s.len() == 0 {
        seq![Seq::empty()]
    } else {
        let r = split_spec(s.drop_last(), c);
        if s.last() == c {
            r.push(Seq::empty())
        } else {
            r.update(r.len() - 1, r.last().push(s.last()))
        }
    }
}

/// `s` without one trailing carriage return.
pub open spec fn strip_cr(s: Seq<u8>) -> Seq<u8> {
    if s.len() > 0 && s.last() == 13u8 {
        s.drop_last()
    } else {
        s
    }
}

/// The lines of a text: the pieces between line feeds, a carriage return
/// before a line feed dropped, and no empty line after the last line feed.
pub open spec fn lines_spec(s: Seq<u8>) -> Seq<Seq<u8>> {
    let p = split_spec(s, 10u8);
    let ended = Seq::new((p.len() - 1) as nat, |i: int| strip_cr(p[i]));
    if p.last().len() > 0 {
        ended.push(p.last())
    } else {
        ended
    }
}

pub open spec fn is_digit(b: u8) -> bool {
    48u8 <= b <= 57u8
}

/// The value of a string of decimal digits.
pub open spec fn digits_value(s: Seq<u8>) -> nat
    decreases s.len(),
{
    if s.len() == 0 {
        0
    } else {
        digits_value(s.drop_last()) * 10 + (s.last() - 48u8) as nat
    }
}

/// `s` without one leading `+`.
pub open spec fn unsigned_part(s: Seq<u8>) -> Seq<u8> {
    if s.len() > 0 && s[0] == 43u8 { s.drop_first() } else { s }
}

pub open spec fn all_digits(d: Seq<u8>) -> bool {
    forall|i: int| 0 <= i < d.len() ==> is_digit(#[trigger] d[i])
}

/// The unsigned integer that `s` spells: an optional `+`, then one or more
/// decimal digits.
pub open spec fn number_spec(s: Seq<u8>) -> Option<nat> {
    let d = unsigned_part(s);
    if d.len() > 0 && all_digits(d) {
        Some(digits_value(d))
    } else {
        None
    }
}

/// The `usize` that `s` spells, if it spells one that fits.
pub open spec fn usize_spec(s: Seq<u8>) -> Option<usize> {
    match number_spec(s) {
        Some(v) => if v <= usize::MAX { Some(v as usize) } else { None },
        None => None,
    }
}

/// What one token of line `line` gives: nothing for a token without `:`, an
/// edge `(line, neighbor, weight)` from the first two `:`-separated fields,
/// or an error when one of them is no number or a node index exceeds
/// `MAX_NODE`.
pub open spec fn token_spec(line: usize, tok: Seq<u8>) -> Result<Option<(usize, usize, usize)>, ParseError> {
    let f = split_spec(tok, 58u8);
    if f.len() == 1 {
        Ok(None)
    } else {
        match (usize_spec(f[0]), usize_spec(f[1])) {
            (Some(v), Some(w)) => if v <= MAX_NODE && line <= MAX_NODE { Ok(Some((line, v, w))) } else { Err(ParseError::FormatError) },
            _ => Err(ParseError::FormatError),
        }
    }
}

/// The edges of the first `k` tokens of line `line`, in order.
pub open spec fn tokens_spec(line: usize, toks: Seq<Seq<u8>>, k: int) -> Result<Seq<(usize, usize, usize)>, ParseError>
    decreases k,
{
    if k <= 0 {
        Ok(Seq::empty())
    } else {
        match tokens_spec(line, toks, k - 1) {
            Ok(es) => match token_spec(line, toks[k - 1]) {
                Ok(Some(e)) => Ok(es.push(e)),
                Ok(None) => Ok(es),
                Err(x) => Err(x),
            },
            Err(x) => Err(x),
        }
    }
}

/// The edges of the first `k` lines, in order.
pub open spec fn lines_edges_spec(lines: Seq<Seq<u8>>, k: int) -> Result<Seq<(usize, usize, usize)>, ParseError>
    decreases k,
{
    if k <= 0 {
        Ok(Seq::empty())
    } else {
        match lines_edges_spec(lines, k - 1) {
            Ok(es) => {
                let toks = split_spec(lines[k - 1], 44u8);
                match tokens_spec((k - 1) as usize, toks, toks.len() as int) {
                    Ok(more) => Ok(es + more),
                    Err(x) => Err(x),
                }
            },
            Err(x) => Err(x),
        }
    }
}

/// The edges that a text describes, in the order they appear.
pub open spec fn edges_spec(text: Seq<u8>) -> Result<Seq<(usize, usize, usize)>, ParseError> {
    let lines = lines_spec(text);
    lines_edges_spec(lines, lines.len() as int)
}

proof fn lemma_split_nonempty(s: Seq<u8>, c: u8)
    ensures
        split_spec(s, c).len() >= 1,
    decreases s.len(),
{
    if s.len() > 0 {
        lemma_split_nonempty(s.drop_last(), c);
    }
}

proof fn lemma_tokens_err_stays(line: usize, toks: Seq<Seq<u8>>, k: int, m: int)
    requires
        0 <= k <= m,
        tokens_spec(line, toks, k) is Err,
    ensures
        tokens_spec(line, toks, m) == tokens_spec(line, toks, k),
    decreases m - k,
{
    if m > k {
        lemma_tokens_err_stays(line, toks, k, m - 1);
    }
}

proof fn lemma_lines_err_stays(lines: Seq<Seq<u8>>, k: int, m: int)
    requires
        0 <= k <= m,
        lines_edges_spec(lines, k) is Err,
    ensures
        lines_edges_spec(lines, m) == lines_edges_spec(lines, k),
    decreases m - k,
{
    if m > k {
        lemma_lines_err_stays(lines, k, m - 1);
    }
}

/// A parse result with its edge vector seen as a sequence.
pub open spec fn edges_view(r: Result<Vec<(usize, usize, usize)>, ParseError>) -> Result<Seq<(usize, usize, usize)>, ParseError> {
    match r {
        Ok(es) => Ok(es@),
        Err(x) => Err(x),
    }
}

/// Splits `s` at each byte `c`.
pub fn split_bytes(s: &[u8], c: u8) -> (r: Vec<Vec<u8>>)
    ensures
        r.len() == split_spec(s@, c).len(),
        forall|i: int| 0 <= i < r.len() ==> (#[trigger] r[i])@ == split_spec(s@, c)[i],
{
    let mut pieces: Vec<Vec<u8>> = Vec::new();
    let mut cur: Vec<u8> = Vec::new();
    let mut i: usize = 0;
    assert(s@.take(0) =~= Seq::<u8>::empty());
    while i < s.len()
        invariant
            i <= s.len(),
            pieces.len() + 1 == split_spec(s@.take(i as int), c).len(),
            forall|j: int| 0 <= j < pieces.len() ==> (#[trigger] pieces[j])@ == split_spec(s@.take(i as int), c)[j],
            cur@ == split_spec(s@.take(i as int), c).last(),
        decreases s.len() - i,
    {
        assert(s@.take(i + 1).drop_last() =~= s@.take(i as int));
        if s[i] == c {
            pieces.push(cur);
            cur = Vec::new();
        } else {
            cur.push(s[i]);
        }
        i = i + 1;
    }
    assert(s@.take(s.len() as int) =~= s@);
    pieces.push(cur);
    pieces
}

/// Reads the unsigned integer that `s` spells, as `str::parse::<usize>` does.
pub fn parse_usize(s: &[u8]) -> (r: Result<usize, ParseError>)
    ensures
        r is Ok <==> usize_spec(s@) is Some,
        r is Ok ==> usize_spec(s@) == Some(r->Ok_0),
{
    let start: usize = if s.len() > 0 && s[0] == 43u8 { 1 } else { 0 };
    let ghost d = unsigned_part(s@);
    assert(d =~= s@.subrange(start as int, s.len() as int));
    if start == s.len() {
        return Err(ParseError::FormatError);
    }
    let mut value: usize = 0;
    let mut overflow: bool = false;
    let mut i: usize = start;
    assert(d.take(0) =~= Seq::<u8>::empty());
    while i < s.len()
        invariant
            start <= i <= s.len(),
            d =~= s@.subrange(start as int, s.len() as int),
            start == (if s@.len() > 0 && s@[0] == 43u8 { 1usize } else { 0usize }),
            forall|j: int| 0 <= j < i - start ==> is_digit(#[trigger] d[j]),
            !overflow ==> value as nat == digits_value(d.take(i - start)),
            overflow ==> digits_value(d.take(i - start)) > usize::MAX,
        decreases s.len() - i,
    {
        let b = s[i];
        if b < 48u8 || b > 57u8 {
            assert(!is_digit(d[i - start]));
            return Err(ParseError::FormatError);
        }
        let ghost prev = digits_value(d.take(i - start));
        assert(d.take(i - start + 1).drop_last() =~= d.take(i - start));
        assert(digits_value(d.take(i - start + 1)) == prev * 10 + (b - 48u8) as nat);
        if !overflow {
            match value.checked_mul(10) {
                Some(m) => match m.checked_add((b - 48u8) as usize) {
                    Some(n) => { value = n; },
                    None => { overflow = true; },
                },
                None => { overflow = true; },
            }
        } else {
            assert(prev * 10 + (b - 48u8) as nat >= prev) by (nonlinear_arith);
        }
        i = i + 1;
    }
    assert(d.take(s.len() - start) =~= d);
    if overflow {
        Err(ParseError::FormatError)
    } else {
        Ok(value)
    }
}

/// A copy of `s` without one trailing carriage return.
fn strip_cr_bytes(s: &[u8]) -> (r: Vec<u8>)
    ensures
        r@ == strip_cr(s@),
{
    let n: usize = if s.len() > 0 && s[s.len() - 1] == 13u8 { s.len() - 1 } else { s.len() };
    let mut r: Vec<u8> = Vec::new();
    let mut i: usize = 0;
    while i < n
        invariant
            n <= s.len(),
            i <= n,
            r@ =~= s@.take(i as int),
        decreases n - i,
    {
        r.push(s[i]);
        i = i + 1;
    }
    assert(strip_cr(s@) =~= s@.take(n as int));
    r
}

/// Reads one token of line `line`.
pub fn parse_token(line: usize, tok: &[u8]) -> (r: Result<Option<(usize, usize, usize)>, ParseError>)
    ensures
        r == token_spec(line, tok@),
        r is Ok && r->Ok_0 is Some ==> r->Ok_0->Some_0.0 == line && line <= MAX_NODE && r->Ok_0->Some_0.1 <= MAX_NODE,
{
    let fields = split_bytes(tok, 58u8);
    proof {
        lemma_split_nonempty(tok@, 58u8);
    }
    if fields.len() == 1 {
        return Ok(None);
    }
    let v = parse_usize(fields[0].as_slice());
    let w = parse_usize(fields[1].as_slice());
    match (v, w) {
        (Ok(v), Ok(w)) => if v <= MAX_NODE && line <= MAX_NODE { Ok(Some((line, v, w))) } else { Err(ParseError::FormatError) },
        _ => Err(ParseError::FormatError),
    }
}

/// Reads the edges of line `line`, in order.
pub fn parse_line(line: usize, text: &[u8]) -> (r: Result<Vec<(usize, usize, usize)>, ParseError>)
    ensures
        edges_view(r) == tokens_spec(line, split_spec(text@, 44u8), split_spec(text@, 44u8).len() as int),
        r is Ok ==> forall|j: int| 0 <= j < r->Ok_0.len() ==> (#[trigger] r->Ok_0[j]).0 == line && line <= MAX_NODE && r->Ok_0[j].1 <= MAX_NODE,
{
    let toks = split_bytes(text, 44u8);
    let ghost ts = split_spec(text@, 44u8);
    let mut es: Vec<(usize, usize, usize)> = Vec::new();
    let mut k: usize = 0;
    while k < toks.len()
        invariant
            ts == split_spec(text@, 44u8),
            toks.len() == ts.len(),
            forall|i: int| 0 <= i < toks.len() ==> (#[trigger] toks[i])@ == ts[i],
            k <= toks.len(),
            tokens_spec(line, ts, k as int) == Ok::<Seq<(usize, usize, usize)>, ParseError>(es@),
            forall|j: int| 0 <= j < es.len() ==> (#[trigger] es[j]).0 == line && line <= MAX_NODE && es[j].1 <= MAX_NODE,
        decreases toks.len() - k,
    {
        match parse_token(line, toks[k].as_slice()) {
            Ok(Some(e)) => {
                assert(e.0 == line && line <= MAX_NODE && e.1 <= MAX_NODE);
                es.push(e);
            },
            Ok(None) => {},
            Err(x) => {
                proof {
                    assert(tokens_spec(line, ts, k + 1) == Err::<Seq<(usize, usize, usize)>, ParseError>(x));
                    lemma_tokens_err_stays(line, ts, k + 1, ts.len() as int);
                }
                return Err(x);
            },
        }
        k = k + 1;
    }
    Ok(es)
}

/// Reads the edges that a text describes, in the order they appear: the
/// tokens of line `i` give edges from node `i`.
pub fn parse_edges(text: &[u8]) -> (r: Result<Vec<(usize, usize, usize)>, ParseError>)
    ensures
        edges_view(r) == edges_spec(text@),
        r is Ok ==> forall|j: int| 0 <= j < r->Ok_0.len() ==> (#[trigger] r->Ok_0[j]).0 <= MAX_NODE && r->Ok_0[j].1 <= MAX_NODE,
{
    let pieces = split_bytes(text, 10u8);
    proof {
        lemma_split_nonempty(text@, 10u8);
    }
    let ghost lines = lines_spec(text@);
    let ghost p = split_spec(text@, 10u8);
    let n_lines: usize = if pieces[pieces.len() - 1].len() > 0 { pieces.len() } else { pieces.len() - 1 };
    assert(lines.len() == n_lines);
    let mut es: Vec<(usize, usize, usize)> = Vec::new();
    let mut i: usize = 0;
    while i < n_lines
        invariant
            lines == lines_spec(text@),
            p == split_spec(text@, 10u8),
            pieces.len() == p.len(),
            p.len() >= 1,
            forall|j: int| 0 <= j < pieces.len() ==> (#[trigger] pieces[j])@ == p[j],
            n_lines == lines.len(),
            n_lines <= pieces.len(),
            i <= n_lines,
            lines_edges_spec(lines, i as int) == Ok::<Seq<(usize, usize, usize)>, ParseError>(es@),
            forall|j: int| 0 <= j < es.len() ==> (#[trigger] es[j]).0 <= MAX_NODE && es[j].1 <= MAX_NODE,
        decreases n_lines - i,
    {
        let line = if i + 1 < pieces.len() {
            strip_cr_bytes(pieces[i].as_slice())
        } else {
            pieces[i].clone()
        };
        assert(line@ =~= lines[i as int]);
        match parse_line(i, line.as_slice()) {
            Ok(mut more) => {
                let ghost before = es@;
                let ghost added = more@;
                es.append(&mut more);
                assert(forall|j: int| before.len() <= j < es.len() ==> es[j] == #[trigger] added[j - before.len()]);
            },
            Err(x) => {
                proof {
                    assert(lines_edges_spec(lines, i + 1) == Err::<Seq<(usize, usize, usize)>, ParseError>(x));
                    lemma_lines_err_stays(lines, i + 1, lines.len() as int);
                }
                return Err(x);
            },
        }
        i = i + 1;
    }
    Ok(es)
}

/// Builds the road network that a text describes: one undirected edge per
/// token, parallel edges kept, the node count one past the largest index.
pub fn build_graph(input: &str) -> (r: Result<RoadGraph, ParseError>)
    ensures
        r is Ok <==> edges_spec(input.spec_bytes()) is Ok,
        r is Ok ==> built_from(adjacency(r->Ok_0), edges_spec(input.spec_bytes())->Ok_0),
        r is Ok ==> well_formed(adjacency(r->Ok_0)),
{
    match parse_edges(input.as_bytes()) {
        Ok(es) => {
            let ghost v = es@;
            let g = build_from_edges(es);
            proof {
                lemma_built_well_formed(adjacency(g), v);
            }
            Ok(g)
        },
        Err(x) => Err(x),
    }
}

} // verus!
