//! Parsing of whole G-code files.
//!
//! The grammar is line oriented.  A line holds optional whitespace, zero or
//! more space-separated command invocations, and an optional trailing comment
//! from `;` to the end of the line.  An invocation is a head token (`G28`,
//! `G0`, `G1`, `G2`, `G3`, `M280`) followed by parameter tokens
//! `<letter><number>` with letters `X`, `Y`, `I`, `J`, `P`, `S`.  Parameters
//! may come in any order; when a letter repeats, the last occurrence wins.
//! The first malformed line aborts the whole parse with a structured error
//! carrying the 0-based line and column; no partial list is returned.

use vstd::prelude::*;
use vstd::string::StrSliceExecFns;

use crate::fixed::Fixed;
use crate::gcode::{CommentlessGCodeExpr, GCmd, GCodeExpr, is_comment, view_cmds, view_code_cmds};
use crate::numtext::{parse_num, parse_num_vec};

verus! {

/// Index of the first occurrence of `c` in `s`, or `s.len()` if none.
pub open spec fn first_pos(s: Seq<char>, c: char) -> int
    decreases s.len(),
{
    if s.len() == 0 {
        0
    } else if s[0] == c {
        0
    } else {
        1 + first_pos(s.drop_first(), c)
    }
}

/// The first occurrence index is within bounds, points at `c` when `c`
/// occurs, and nothing before it is `c`.
pub proof fn lemma_first_pos(s: Seq<char>, c: char)
    ensures
        0 <= first_pos(s, c) <= s.len(),
        first_pos(s, c) < s.len() ==> s[first_pos(s, c)] == c,
        forall|j: int| 0 <= j < first_pos(s, c) ==> s[j] != c,
    decreases s.len(),
{
    if s.len() > 0 && s[0] != c {
        lemma_first_pos(s.drop_first(), c);
        assert forall|j: int| 1 <= j < first_pos(s, c) implies s[j] != c by {
            assert(s[j] == s.drop_first()[j - 1]);
        }
    }
}

/// A scan that saw no `c` up to `m`, and `c` or the end at `m`, found the
/// first occurrence.
pub proof fn lemma_first_pos_at(s: Seq<char>, c: char, m: int)
    requires
        0 <= m <= s.len(),
        forall|j: int| 0 <= j < m ==> s[j] != c,
        m < s.len() ==> s[m] == c,
    ensures
        first_pos(s, c) == m,
    decreases s.len(),
{
    if s.len() == 0 || m == 0 {
    } else {
        let t = s.drop_first();
        assert(forall|j: int| 0 <= j < m - 1 ==> #[trigger] t[j] == s[j + 1]);
        assert(m - 1 < t.len() ==> t[m - 1] == s[m]);
        lemma_first_pos_at(t, c, m - 1);
    }
}

/// Drops a carriage return left at the end of a line by a `\r\n` ending.
pub open spec fn strip_cr(l: Seq<char>) -> Seq<char> {
    if l.len() > 0 && l.last() == '\r' {
        l.drop_last()
    } else {
        l
    }
}

/// The lines of a file: split at `\n`, a `\r` directly before the `\n`
/// dropped, a final line without `\n` kept as it stands.
pub open spec fn spec_lines(s: Seq<char>) -> Seq<Seq<char>>
    decreases s.len(),
    via spec_lines_dec
{
    if s.len() == 0 {
        Seq::<Seq<char>>::empty()
    } else {
        let i = first_pos(s, '\n');
        if i == s.len() {
            seq![s]
        } else {
            seq![strip_cr(s.take(i))] + spec_lines(s.skip(i + 1))
        }
    }
}

#[via_fn]
proof fn spec_lines_dec(s: Seq<char>) {
    lemma_first_pos(s, '\n');
}

/// Whitespace that separates tokens within a line.
pub open spec fn is_ws(c: char) -> bool {
    c == ' ' || c == '\t'
}

/// End of the token starting at `pos`: the next whitespace, or `s.len()`.
pub open spec fn tok_end(s: Seq<char>, pos: int) -> int
    decreases s.len() - pos,
{
    if pos < 0 || pos >= s.len() {
        s.len() as int
    } else if is_ws(s[pos]) {
        pos
    } else {
        tok_end(s, pos + 1)
    }
}

/// Bounds and content of a token extent.
pub proof fn lemma_tok_end(s: Seq<char>, pos: int)
    requires
        0 <= pos <= s.len(),
    ensures
        pos <= tok_end(s, pos) <= s.len(),
        tok_end(s, pos) < s.len() ==> is_ws(s[tok_end(s, pos)]),
        forall|j: int| pos <= j < tok_end(s, pos) ==> !is_ws(s[j]),
    decreases s.len() - pos,
{
    if pos < s.len() && !is_ws(s[pos]) {
        lemma_tok_end(s, pos + 1);
    }
}

/// A scan that saw no whitespace up to `m`, and whitespace or the end at
/// `m`, found the token's end.
pub proof fn lemma_tok_end_at(s: Seq<char>, pos: int, m: int)
    requires
        0 <= pos <= m <= s.len(),
        forall|j: int| pos <= j < m ==> !is_ws(s[j]),
        m < s.len() ==> is_ws(s[m]),
    ensures
        tok_end(s, pos) == m,
    decreases m - pos,
{
    if pos < m {
        lemma_tok_end_at(s, pos + 1, m);
    }
}

/// The tokens of the code part of a line from `pos` on, each with the
/// column it starts at.
pub open spec fn tokens_from(s: Seq<char>, pos: int) -> Seq<(int, Seq<char>)>
    decreases s.len() - pos,
    via tokens_from_dec
{
    if pos < 0 || pos >= s.len() {
        Seq::<(int, Seq<char>)>::empty()
    } else if is_ws(s[pos]) {
        tokens_from(s, pos + 1)
    } else {
        let e = tok_end(s, pos);
        seq![(pos, s.subrange(pos, e))] + tokens_from(s, e)
    }
}

#[via_fn]
proof fn tokens_from_dec(s: Seq<char>, pos: int) {
    if 0 <= pos < s.len() && !is_ws(s[pos]) {
        lemma_tok_end(s, pos);
    }
}

/// The kind of a parse failure.
#[derive(Clone, Copy, PartialEq, Eq, Structural, Debug)]
pub enum ParseErrorKind {
    /// A token that is neither a known head nor a parameter the head takes.
    UnexpectedToken,
    /// A head misses one of the parameters it mandates.
    MissingParameter,
    /// A parameter's number is malformed or out of range.
    MalformedNumber,
}

/// A parse failure within one line: the column it was found at, and why.
pub ghost struct LineError {
    pub col: int,
    pub kind: ParseErrorKind,
}

/// A parse failure in a file: 0-based line and column, and why.  The first
/// such failure aborts the whole parse.
#[derive(Clone, Copy, PartialEq, Eq, Structural, Debug)]
pub struct ParseError {
    pub line: usize,
    pub col: usize,
    pub kind: ParseErrorKind,
}

/// Mathematical model of a parse failure.
pub ghost struct PError {
    pub line: int,
    pub col: int,
    pub kind: ParseErrorKind,
}

impl View for ParseError {
    type V = PError;

    open spec fn view(&self) -> PError {
        PError { line: self.line as int, col: self.col as int, kind: self.kind }
    }
}

/// The command heads of the dialect.
#[derive(Clone, Copy, PartialEq, Eq, Structural, Debug)]
pub enum Head {
    Home,
    RapidMove,
    LinearMove,
    ArcCw,
    ArcCcw,
    Pen,
}

/// The head a token names, if any.
pub open spec fn spec_head_of(t: Seq<char>) -> Option<Head> {
    if t == seq!['G', '2', '8'] {
        Some(Head::Home)
    } else if t == seq!['G', '0'] {
        Some(Head::RapidMove)
    } else if t == seq!['G', '1'] {
        Some(Head::LinearMove)
    } else if t == seq!['G', '2'] {
        Some(Head::ArcCw)
    } else if t == seq!['G', '3'] {
        Some(Head::ArcCcw)
    } else if t == seq!['M', '2', '8', '0'] {
        Some(Head::Pen)
    } else {
        None
    }
}

/// Whether a token opens a parameter: a recognized parameter letter first.
pub open spec fn is_param_tok(t: Seq<char>) -> bool {
    t.len() >= 1 && (t[0] == 'X' || t[0] == 'Y' || t[0] == 'I' || t[0] == 'J' || t[0] == 'P'
        || t[0] == 'S')
}

/// Which parameter letters a head accepts.
pub open spec fn letter_allowed(h: Head, c: char) -> bool {
    match h {
        Head::Home => false,
        Head::RapidMove => c == 'X' || c == 'Y',
        Head::LinearMove => c == 'X' || c == 'Y',
        Head::ArcCw => c == 'X' || c == 'Y' || c == 'I' || c == 'J',
        Head::ArcCcw => c == 'X' || c == 'Y' || c == 'I' || c == 'J',
        Head::Pen => c == 'P' || c == 'S',
    }
}

/// Parameters collected for one invocation: for each letter, the column of
/// its last occurrence and the raw value it carries.
pub ghost struct PParams {
    pub x: Option<(int, int)>,
    pub y: Option<(int, int)>,
    pub i: Option<(int, int)>,
    pub j: Option<(int, int)>,
    pub p: Option<(int, int)>,
    pub s: Option<(int, int)>,
}

/// No parameters seen yet.
pub open spec fn empty_params() -> PParams {
    PParams { x: None, y: None, i: None, j: None, p: None, s: None }
}

/// Records one parameter; a repeated letter overwrites: the last wins.
pub open spec fn set_param(ps: PParams, c: char, col: int, v: int) -> PParams {
    if c == 'X' {
        PParams { x: Some((col, v)), ..ps }
    } else if c == 'Y' {
        PParams { y: Some((col, v)), ..ps }
    } else if c == 'I' {
        PParams { i: Some((col, v)), ..ps }
    } else if c == 'J' {
        PParams { j: Some((col, v)), ..ps }
    } else if c == 'P' {
        PParams { p: Some((col, v)), ..ps }
    } else {
        PParams { s: Some((col, v)), ..ps }
    }
}

/// Collects the parameter tokens that follow a head, starting at token
/// `idx`.  Stops at the first token that opens no parameter and returns the
/// collected parameters with that token's index; fails on a letter the head
/// does not accept, or on a malformed number.
pub open spec fn collect_params(toks: Seq<(int, Seq<char>)>, idx: int, h: Head, acc: PParams) -> Result<
    (PParams, int),
    LineError,
>
    decreases toks.len() - idx,
{
    if idx < 0 || idx >= toks.len() {
        Ok((acc, toks.len() as int))
    } else {
        let (col, txt) = toks[idx];
        if !is_param_tok(txt) {
            Ok((acc, idx))
        } else if !letter_allowed(h, txt[0]) {
            Err(LineError { col, kind: ParseErrorKind::UnexpectedToken })
        } else {
            match parse_num(txt.drop_first()) {
                None => Err(LineError { col, kind: ParseErrorKind::MalformedNumber }),
                Some(v) => collect_params(toks, idx + 1, h, set_param(acc, txt[0], col, v)),
            }
        }
    }
}

/// Builds the command a head denotes from its parameters, or reports the
/// mandated parameter that is missing.  `M280` demands `P0` and an `S`
/// value; the pen is down when that value is at least 40 units.
pub open spec fn build_cmd(h: Head, headcol: int, ps: PParams) -> Result<GCmd, LineError> {
    match h {
        Head::Home => Ok(GCmd::Home),
        Head::RapidMove => match (ps.x, ps.y) {
            (Some((_, x)), Some((_, y))) => Ok(GCmd::Move { x, y }),
            _ => Err(LineError { col: headcol, kind: ParseErrorKind::MissingParameter }),
        },
        Head::LinearMove => match (ps.x, ps.y) {
            (Some((_, x)), Some((_, y))) => Ok(GCmd::LinMove { x, y }),
            _ => Err(LineError { col: headcol, kind: ParseErrorKind::MissingParameter }),
        },
        Head::ArcCw => match (ps.x, ps.y, ps.i, ps.j) {
            (Some((_, x)), Some((_, y)), Some((_, i)), Some((_, j))) => Ok(
                GCmd::Arc { clkw: true, x, y, i, j },
            ),
            _ => Err(LineError { col: headcol, kind: ParseErrorKind::MissingParameter }),
        },
        Head::ArcCcw => match (ps.x, ps.y, ps.i, ps.j) {
            (Some((_, x)), Some((_, y)), Some((_, i)), Some((_, j))) => Ok(
                GCmd::Arc { clkw: false, x, y, i, j },
            ),
            _ => Err(LineError { col: headcol, kind: ParseErrorKind::MissingParameter }),
        },
        Head::Pen => match ps.p {
            None => Err(LineError { col: headcol, kind: ParseErrorKind::MissingParameter }),
            Some((pcol, pv)) => {
                if pv != 0 {
                    Err(LineError { col: pcol, kind: ParseErrorKind::UnexpectedToken })
                } else {
                    match ps.s {
                        None => Err(
                            LineError { col: headcol, kind: ParseErrorKind::MissingParameter },
                        ),
                        Some((_, sv)) => Ok(GCmd::Pen { down: sv >= 40000 }),
                    }
                }
            },
        },
    }
}

/// Parses a token stream into the commands it denotes, in order.
pub open spec fn parse_cmds(toks: Seq<(int, Seq<char>)>, idx: int) -> Result<Seq<GCmd>, LineError>
    decreases toks.len() - idx,
    via parse_cmds_dec
{
    if idx < 0 || idx >= toks.len() {
        Ok(Seq::<GCmd>::empty())
    } else {
        let (col, txt) = toks[idx];
        match spec_head_of(txt) {
            None => Err(LineError { col, kind: ParseErrorKind::UnexpectedToken }),
            Some(h) => match collect_params(toks, idx + 1, h, empty_params()) {
                Err(e) => Err(e),
                Ok((ps, nxt)) => match build_cmd(h, col, ps) {
                    Err(e) => Err(e),
                    Ok(c) => match parse_cmds(toks, nxt) {
                        Err(e) => Err(e),
                        Ok(rest) => Ok(seq![c] + rest),
                    },
                },
            },
        }
    }
}

#[via_fn]
proof fn parse_cmds_dec(toks: Seq<(int, Seq<char>)>, idx: int) {
    if 0 <= idx < toks.len() {
        let (col, txt) = toks[idx];
        match spec_head_of(txt) {
            None => {},
            Some(h) => {
                lemma_collect_params_bounds(toks, idx + 1, h, empty_params());
            },
        }
    }
}

/// Parameter collection never steps backwards nor past the end.
pub proof fn lemma_collect_params_bounds(
    toks: Seq<(int, Seq<char>)>,
    idx: int,
    h: Head,
    acc: PParams,
)
    requires
        0 <= idx <= toks.len(),
    ensures
        collect_params(toks, idx, h, acc) matches Ok((ps, nxt)) ==> idx <= nxt <= toks.len(),
    decreases toks.len() - idx,
{
    if idx < toks.len() {
        let (col, txt) = toks[idx];
        if is_param_tok(txt) && letter_allowed(h, txt[0]) {
            match parse_num(txt.drop_first()) {
                None => {},
                Some(v) => {
                    lemma_collect_params_bounds(toks, idx + 1, h, set_param(acc, txt[0], col, v));
                },
            }
        }
    }
}

/// Parses one line: the code part before any `;` as commands, then the
/// comment, if one is there, as a trailing `Comment` command.
pub open spec fn parse_line(l: Seq<char>) -> Result<Seq<GCmd>, LineError> {
    let k = first_pos(l, ';');
    match parse_cmds(tokens_from(l.take(k), 0), 0) {
        Err(e) => Err(e),
        Ok(cs) => Ok(
            if k < l.len() {
                cs + seq![GCmd::Comment { text: l.skip(k + 1) }]
            } else {
                cs
            },
        ),
    }
}

/// Tags each command of a line with its 0-based line number.
pub open spec fn tag_line(cs: Seq<GCmd>, l: int) -> Seq<(int, GCmd)> {
    cs.map_values(|c: GCmd| (l, c))
}

/// Parses the lines from `idx` on, tagging commands with their line.  The
/// first failing line aborts the parse.
pub open spec fn parse_lines(ls: Seq<Seq<char>>, idx: int) -> Result<Seq<(int, GCmd)>, PError>
    decreases ls.len() - idx,
{
    if idx < 0 || idx >= ls.len() {
        Ok(Seq::<(int, GCmd)>::empty())
    } else {
        match parse_line(ls[idx]) {
            Err(e) => Err(PError { line: idx, col: e.col, kind: e.kind }),
            Ok(cs) => match parse_lines(ls, idx + 1) {
                Err(e) => Err(e),
                Ok(rest) => Ok(tag_line(cs, idx) + rest),
            },
        }
    }
}

/// What a whole file denotes: its ordered, line-tagged command list, or the
/// first structured error.  No partial list accompanies an error.
pub open spec fn spec_parse_file(s: Seq<char>) -> Result<Seq<(int, GCmd)>, PError> {
    parse_lines(spec_lines(s), 0)
}

/// The commentless denotation: the same list with comments dropped;
/// the commands that remain, and their line tags, are unaffected.
pub open spec fn spec_parse_file_commentless(s: Seq<char>) -> Result<Seq<(int, GCmd)>, PError> {
    match spec_parse_file(s) {
        Err(e) => Err(e),
        Ok(m) => Ok(m.filter(|p: (int, GCmd)| !is_comment(p.1))),
    }
}

} // verus!

verus! {

/// The characters of a string slice, in order.
#[verifier::loop_isolation(false)]
pub fn chars_of(s: &str) -> (r: Vec<char>)
    ensures
        r@ == s@,
{
    let n = s.unicode_len();
    let mut r: Vec<char> = Vec::new();
    let mut i: usize = 0;
    while i < n
        invariant
            0 <= i <= n,
            r@ == s@.take(i as int),
        decreases n - i,
    {
        let c = s.get_char(i);
        r.push(c);
        proof {
            assert(r@ =~= s@.take(i + 1));
        }
        i = i + 1;
    }
    proof {
        assert(s@.take(n as int) =~= s@);
    }
    r
}

/// A copy of the characters `i..j`.
#[verifier::loop_isolation(false)]
pub fn subvec(v: &Vec<char>, i: usize, j: usize) -> (r: Vec<char>)
    requires
        i <= j <= v.len(),
    ensures
        r@ == v@.subrange(i as int, j as int),
{
    let mut r: Vec<char> = Vec::new();
    let mut k: usize = i;
    while k < j
        invariant
            i <= k <= j,
            r@ == v@.subrange(i as int, k as int),
        decreases j - k,
    {
        r.push(v[k]);
        proof {
            assert(r@ =~= v@.subrange(i as int, k + 1));
        }
        k = k + 1;
    }
    r
}

/// Splits the characters from `pos` on into lines, as [`spec_lines`] says.
#[verifier::loop_isolation(false)]
fn split_lines_from(v: &Vec<char>, pos: usize) -> (r: Vec<Vec<char>>)
    requires
        pos <= v.len(),
    ensures
        r.deep_view() == spec_lines(v@.skip(pos as int)),
    decreases v.len() - pos,
{
    let ghost s = v@.skip(pos as int);
    proof {
        assert(forall|j: int| 0 <= j < s.len() ==> s[j] == v@[j + pos]);
    }
    let n = v.len();
    if pos == n {
        let r: Vec<Vec<char>> = Vec::new();
        proof {
            assert(r.deep_view() =~~= spec_lines(s));
        }
        return r;
    }
    let mut i: usize = pos;
    while i < n && v[i] != '\n'
        invariant
            pos <= i <= n,
            forall|j: int| pos <= j < i ==> v@[j] != '\n',
        decreases n - i,
    {
        i = i + 1;
    }
    proof {
        lemma_first_pos_at(s, '\n', i - pos);
    }
    let line: Vec<char> = if i < n && i > pos && v[i - 1] == '\r' {
        subvec(v, pos, i - 1)
    } else {
        subvec(v, pos, i)
    };
    proof {
        assert(s.take(i - pos) =~= v@.subrange(pos as int, i as int));
        if i < n {
            if i > pos && v@[i - 1] == '\r' {
                assert(s.take(i - pos).last() == '\r');
                assert(strip_cr(s.take(i - pos)) =~= v@.subrange(pos as int, i - 1));
            } else {
                assert(strip_cr(s.take(i - pos)) =~= v@.subrange(pos as int, i as int));
            }
        }
    }
    if i == n {
        let mut r: Vec<Vec<char>> = Vec::new();
        r.push(line);
        proof {
            assert(line@ =~= s);
            assert(line.deep_view() =~= line@);
            assert(r.deep_view() =~~= seq![s]);
        }
        r
    } else {
        let mut rest = split_lines_from(v, i + 1);
        let ghost restdv = rest.deep_view();
        rest.insert(0, line);
        proof {
            assert(s.skip(i - pos + 1) =~= v@.skip(i + 1));
            assert(line.deep_view() =~= line@);
            assert(rest.deep_view() =~~= seq![strip_cr(s.take(i - pos))] + restdv);
        }
        rest
    }
}

/// One lexed token: the column it starts at, and its characters.
pub struct Token {
    pub col: usize,
    pub text: Vec<char>,
}

impl View for Token {
    type V = (int, Seq<char>);

    open spec fn view(&self) -> (int, Seq<char>) {
        (self.col as int, self.text@)
    }
}

/// The model of a lexed token list.
pub open spec fn view_tokens(ts: Seq<Token>) -> Seq<(int, Seq<char>)> {
    ts.map_values(|t: Token| t@)
}

/// Lexes the code part `pos..upto` of a line into tokens.
#[verifier::loop_isolation(false)]
fn lex_tokens(line: &Vec<char>, upto: usize, pos: usize) -> (r: Vec<Token>)
    requires
        pos <= upto <= line.len(),
    ensures
        view_tokens(r@) == tokens_from(line@.take(upto as int), pos as int),
    decreases upto - pos,
{
    let ghost s = line@.take(upto as int);
    proof {
        assert(forall|j: int| 0 <= j < upto ==> s[j] == line@[j]);
    }
    if pos == upto {
        let r: Vec<Token> = Vec::new();
        proof {
            assert(view_tokens(r@) =~= tokens_from(s, pos as int));
        }
        return r;
    }
    let c = line[pos];
    if c == ' ' || c == '\t' {
        lex_tokens(line, upto, pos + 1)
    } else {
        let mut e: usize = pos;
        while e < upto && line[e] != ' ' && line[e] != '\t'
            invariant
                pos <= e <= upto,
                forall|j: int| pos <= j < e ==> !is_ws(line@[j]),
            decreases upto - e,
        {
            e = e + 1;
        }
        proof {
            lemma_tok_end_at(s, pos as int, e as int);
        }
        let text = subvec(line, pos, e);
        proof {
            assert(text@ =~= s.subrange(pos as int, e as int));
        }
        let tok = Token { col: pos, text };
        let mut rest = lex_tokens(line, upto, e);
        let ghost restv = view_tokens(rest@);
        rest.insert(0, tok);
        proof {
            assert(view_tokens(rest@) =~= seq![(pos as int, s.subrange(pos as int, e as int))]
                + restv);
        }
        rest
    }
}

/// The head an executable token names, if any.
fn head_of(t: &Vec<char>) -> (r: Option<Head>)
    ensures
        r == spec_head_of(t@),
{
    if t.len() == 3 && t[0] == 'G' && t[1] == '2' && t[2] == '8' {
        proof {
            assert(t@ =~= seq!['G', '2', '8']);
        }
        Some(Head::Home)
    } else if t.len() == 2 && t[0] == 'G' && t[1] == '0' {
        proof {
            assert(t@ =~= seq!['G', '0']);
        }
        Some(Head::RapidMove)
    } else if t.len() == 2 && t[0] == 'G' && t[1] == '1' {
        proof {
            assert(t@ =~= seq!['G', '1']);
        }
        Some(Head::LinearMove)
    } else if t.len() == 2 && t[0] == 'G' && t[1] == '2' {
        proof {
            assert(t@ =~= seq!['G', '2']);
        }
        Some(Head::ArcCw)
    } else if t.len() == 2 && t[0] == 'G' && t[1] == '3' {
        proof {
            assert(t@ =~= seq!['G', '3']);
        }
        Some(Head::ArcCcw)
    } else if t.len() == 4 && t[0] == 'M' && t[1] == '2' && t[2] == '8' && t[3] == '0' {
        proof {
            assert(t@ =~= seq!['M', '2', '8', '0']);
        }
        Some(Head::Pen)
    } else {
        None
    }
}

/// Collected parameters of one invocation, executable form.
pub struct Params {
    pub x: Option<(usize, i64)>,
    pub y: Option<(usize, i64)>,
    pub i: Option<(usize, i64)>,
    pub j: Option<(usize, i64)>,
    pub p: Option<(usize, i64)>,
    pub s: Option<(usize, i64)>,
}

/// The model of one collected parameter.
pub open spec fn view_param(o: Option<(usize, i64)>) -> Option<(int, int)> {
    match o {
        None => None,
        Some((c, v)) => Some((c as int, v as int)),
    }
}

impl View for Params {
    type V = PParams;

    open spec fn view(&self) -> PParams {
        PParams {
            x: view_param(self.x),
            y: view_param(self.y),
            i: view_param(self.i),
            j: view_param(self.j),
            p: view_param(self.p),
            s: view_param(self.s),
        }
    }
}

/// Whether the head accepts the parameter letter.
fn letter_allowed_exec(h: Head, c: char) -> (r: bool)
    ensures
        r == letter_allowed(h, c),
{
    match h {
        Head::Home => false,
        Head::RapidMove => c == 'X' || c == 'Y',
        Head::LinearMove => c == 'X' || c == 'Y',
        Head::ArcCw => c == 'X' || c == 'Y' || c == 'I' || c == 'J',
        Head::ArcCcw => c == 'X' || c == 'Y' || c == 'I' || c == 'J',
        Head::Pen => c == 'P' || c == 'S',
    }
}

/// Records one parameter, the last occurrence of a letter winning.
fn record_param(ps: &mut Params, c: char, col: usize, v: i64)
    ensures
        final(ps)@ == set_param(old(ps)@, c, col as int, v as int),
{
    if c == 'X' {
        ps.x = Some((col, v));
    } else if c == 'Y' {
        ps.y = Some((col, v));
    } else if c == 'I' {
        ps.i = Some((col, v));
    } else if c == 'J' {
        ps.j = Some((col, v));
    } else if c == 'P' {
        ps.p = Some((col, v));
    } else {
        ps.s = Some((col, v));
    }
}

/// Collects the parameter tokens that follow a head, as
/// [`collect_params`] says.
fn collect_params_exec(toks: &Vec<Token>, idx: usize, h: Head, ps: &mut Params) -> (r: Result<
    usize,
    (usize, ParseErrorKind),
>)
    requires
        idx <= toks.len(),
    ensures
        match r {
            Ok(nxt) => idx <= nxt <= toks.len() && collect_params(
                view_tokens(toks@),
                idx as int,
                h,
                old(ps)@,
            ) == Ok::<(PParams, int), LineError>((final(ps)@, nxt as int)),
            Err((c, k)) => collect_params(view_tokens(toks@), idx as int, h, old(ps)@) == Err::<
                (PParams, int),
                LineError,
            >(LineError { col: c as int, kind: k }),
        },
    decreases toks.len() - idx,
{
    let ghost tv = view_tokens(toks@);
    if idx == toks.len() {
        return Ok(idx);
    }
    let col = toks[idx].col;
    let tlen = toks[idx].text.len();
    proof {
        assert(tv[idx as int] == (col as int, toks@[idx as int].text@));
    }
    if tlen == 0 {
        return Ok(idx);
    }
    let c = toks[idx].text[0];
    if !(c == 'X' || c == 'Y' || c == 'I' || c == 'J' || c == 'P' || c == 'S') {
        proof {
            assert(!is_param_tok(tv[idx as int].1));
        }
        return Ok(idx);
    }
    if !letter_allowed_exec(h, c) {
        return Err((col, ParseErrorKind::UnexpectedToken));
    }
    match parse_num_vec(&toks[idx].text, 1) {
        None => {
            proof {
                assert(toks@[idx as int].text@.skip(1) =~= tv[idx as int].1.drop_first());
            }
            Err((col, ParseErrorKind::MalformedNumber))
        },
        Some(v) => {
            proof {
                assert(toks@[idx as int].text@.skip(1) =~= tv[idx as int].1.drop_first());
            }
            record_param(ps, c, col, v);
            collect_params_exec(toks, idx + 1, h, ps)
        },
    }
}

/// Builds the command a head denotes, as [`build_cmd`] says.
fn build_cmd_exec(h: Head, headcol: usize, ps: &Params) -> (r: Result<
    CommentlessGCodeExpr,
    (usize, ParseErrorKind),
>)
    ensures
        match r {
            Ok(c) => build_cmd(h, headcol as int, ps@) == Ok::<GCmd, LineError>(c@),
            Err((cc, k)) => build_cmd(h, headcol as int, ps@) == Err::<GCmd, LineError>(
                LineError { col: cc as int, kind: k },
            ),
        },
{
    match h {
        Head::Home => Ok(CommentlessGCodeExpr::Home),
        Head::RapidMove => match (ps.x, ps.y) {
            (Some((_, x)), Some((_, y))) => Ok(
                CommentlessGCodeExpr::Move { x: Fixed::from_raw(x), y: Fixed::from_raw(y) },
            ),
            _ => Err((headcol, ParseErrorKind::MissingParameter)),
        },
        Head::LinearMove => match (ps.x, ps.y) {
            (Some((_, x)), Some((_, y))) => Ok(
                CommentlessGCodeExpr::LinMove { x: Fixed::from_raw(x), y: Fixed::from_raw(y) },
            ),
            _ => Err((headcol, ParseErrorKind::MissingParameter)),
        },
        Head::ArcCw => match (ps.x, ps.y, ps.i, ps.j) {
            (Some((_, x)), Some((_, y)), Some((_, i)), Some((_, j))) => Ok(
                CommentlessGCodeExpr::Arc {
                    clkw: true,
                    x: Fixed::from_raw(x),
                    y: Fixed::from_raw(y),
                    i: Fixed::from_raw(i),
                    j: Fixed::from_raw(j),
                },
            ),
            _ => Err((headcol, ParseErrorKind::MissingParameter)),
        },
        Head::ArcCcw => match (ps.x, ps.y, ps.i, ps.j) {
            (Some((_, x)), Some((_, y)), Some((_, i)), Some((_, j))) => Ok(
                CommentlessGCodeExpr::Arc {
                    clkw: false,
                    x: Fixed::from_raw(x),
                    y: Fixed::from_raw(y),
                    i: Fixed::from_raw(i),
                    j: Fixed::from_raw(j),
                },
            ),
            _ => Err((headcol, ParseErrorKind::MissingParameter)),
        },
        Head::Pen => match ps.p {
            None => Err((headcol, ParseErrorKind::MissingParameter)),
            Some((pcol, pv)) => {
                if pv != 0 {
                    Err((pcol, ParseErrorKind::UnexpectedToken))
                } else {
                    match ps.s {
                        None => Err((headcol, ParseErrorKind::MissingParameter)),
                        Some((_, sv)) => Ok(CommentlessGCodeExpr::Pen(sv >= 40000)),
                    }
                }
            },
        },
    }
}

/// The model of a commentless command list.
pub open spec fn view_code(v: Seq<CommentlessGCodeExpr>) -> Seq<GCmd> {
    v.map_values(|c: CommentlessGCodeExpr| c@)
}

/// Parses a token stream into commands, as [`parse_cmds`] says.
fn parse_cmds_exec(toks: &Vec<Token>, idx: usize) -> (r: Result<
    Vec<CommentlessGCodeExpr>,
    (usize, ParseErrorKind),
>)
    requires
        idx <= toks.len(),
    ensures
        match r {
            Ok(v) => parse_cmds(view_tokens(toks@), idx as int) matches Ok(cs) && view_code(v@)
                == cs,
            Err((c, k)) => parse_cmds(view_tokens(toks@), idx as int) == Err::<
                Seq<GCmd>,
                LineError,
            >(LineError { col: c as int, kind: k }),
        },
    decreases toks.len() - idx,
{
    let ghost tv = view_tokens(toks@);
    if idx == toks.len() {
        let r: Vec<CommentlessGCodeExpr> = Vec::new();
        proof {
            assert(view_code(r@) =~= Seq::<GCmd>::empty());
        }
        return Ok(r);
    }
    let col = toks[idx].col;
    proof {
        assert(tv[idx as int] == (col as int, toks@[idx as int].text@));
    }
    match head_of(&toks[idx].text) {
        None => Err((col, ParseErrorKind::UnexpectedToken)),
        Some(h) => {
            let mut ps = Params { x: None, y: None, i: None, j: None, p: None, s: None };
            proof {
                assert(ps@ == empty_params());
            }
            let nxt = match collect_params_exec(toks, idx + 1, h, &mut ps) {
                Err(e) => {
                    return Err(e);
                },
                Ok(nxt) => nxt,
            };
            let c = match build_cmd_exec(h, col, &ps) {
                Err(e) => {
                    return Err(e);
                },
                Ok(c) => c,
            };
            let mut rest = match parse_cmds_exec(toks, nxt) {
                Err(e) => {
                    return Err(e);
                },
                Ok(rest) => rest,
            };
            let ghost restv = view_code(rest@);
            rest.insert(0, c);
            proof {
                assert(view_code(rest@) =~= seq![c@] + restv);
            }
            Ok(rest)
        },
    }
}

} // verus!

verus! {

/// Collects characters into an owned string.
///
/// Relies on `String`'s `FromIterator<char>`: collecting characters yields
/// the string of exactly those characters, in order.
#[verifier::external_body]
fn chars_to_string(v: &Vec<char>) -> (r: String)
    ensures
        r@ == v@,
{
    v.iter().collect()
}

/// The model of a command list with comments.
pub open spec fn view_exprs(v: Seq<GCodeExpr>) -> Seq<GCmd> {
    v.map_values(|e: GCodeExpr| e@)
}

/// Parses one line, as [`parse_line`] says: the code part before any `;`
/// into commands, a comment into a trailing `Comment`.
#[verifier::loop_isolation(false)]
fn parse_line_exec(line: &Vec<char>) -> (r: Result<Vec<GCodeExpr>, (usize, ParseErrorKind)>)
    ensures
        match r {
            Ok(v) => parse_line(line@) matches Ok(cs) && view_exprs(v@) == cs,
            Err((c, k)) => parse_line(line@) == Err::<Seq<GCmd>, LineError>(
                LineError { col: c as int, kind: k },
            ),
        },
{
    let n = line.len();
    let mut k: usize = 0;
    while k < n && line[k] != ';'
        invariant
            0 <= k <= n,
            forall|j: int| 0 <= j < k ==> line@[j] != ';',
        decreases n - k,
    {
        k = k + 1;
    }
    proof {
        lemma_first_pos_at(line@, ';', k as int);
    }
    let toks = lex_tokens(line, k, 0);
    proof {
        assert(line@.take(k as int) == line@.take(first_pos(line@, ';')));
    }
    let cs = match parse_cmds_exec(&toks, 0) {
        Err(e) => {
            return Err(e);
        },
        Ok(cs) => cs,
    };
    let mut out: Vec<GCodeExpr> = Vec::new();
    let mut m: usize = 0;
    proof {
        assert(view_exprs(out@) =~= view_code(cs@).take(0));
    }
    while m < cs.len()
        invariant
            0 <= m <= cs.len(),
            view_exprs(out@) == view_code(cs@).take(m as int),
            out@.len() == m,
        decreases cs.len() - m,
    {
        out.push(GCodeExpr::Code(cs[m]));
        proof {
            assert(view_exprs(out@) =~= view_code(cs@).take(m + 1));
        }
        m = m + 1;
    }
    proof {
        assert(view_code(cs@).take(cs@.len() as int) =~= view_code(cs@));
    }
    if k < n {
        let text = subvec(line, k + 1, n);
        let ctext = chars_to_string(&text);
        let ghost before = view_exprs(out@);
        out.push(GCodeExpr::Comment(ctext));
        proof {
            assert(text@ =~= line@.skip(k + 1));
            assert(view_exprs(out@) =~= before + seq![
                GCmd::Comment { text: line@.skip(k + 1) },
            ]);
        }
    }
    Ok(out)
}

/// Parses the lines from `idx` on, as [`parse_lines`] says.
fn parse_lines_exec(ls: &Vec<Vec<char>>, idx: usize) -> (r: Result<
    Vec<(usize, GCodeExpr)>,
    ParseError,
>)
    requires
        idx <= ls.len(),
    ensures
        match r {
            Ok(v) => parse_lines(ls.deep_view(), idx as int) matches Ok(m) && view_cmds(v@) == m,
            Err(e) => parse_lines(ls.deep_view(), idx as int) == Err::<Seq<(int, GCmd)>, PError>(
                e@,
            ),
        },
    decreases ls.len() - idx,
{
    let ghost lv = ls.deep_view();
    if idx == ls.len() {
        let r: Vec<(usize, GCodeExpr)> = Vec::new();
        proof {
            assert(view_cmds(r@) =~= Seq::<(int, GCmd)>::empty());
        }
        return Ok(r);
    }
    proof {
        assert(ls@[idx as int].deep_view() =~= ls@[idx as int]@);
        assert(lv[idx as int] == ls@[idx as int]@);
    }
    let mut cs = match parse_line_exec(&ls[idx]) {
        Err((c, k)) => {
            return Err(ParseError { line: idx, col: c, kind: k });
        },
        Ok(cs) => cs,
    };
    let mut rest = match parse_lines_exec(ls, idx + 1) {
        Err(e) => {
            return Err(e);
        },
        Ok(rest) => rest,
    };
    let ghost csv = view_exprs(cs@);
    let ghost restv = view_cmds(rest@);
    let mut out: Vec<(usize, GCodeExpr)> = Vec::new();
    proof {
        assert(view_cmds(out@) =~= tag_line(csv, idx as int).take(0));
    }
    let total = cs.len();
    let mut m: usize = 0;
    proof {
        assert(cs@.skip(0) =~= cs@);
    }
    while cs.len() > 0
        invariant
            m + cs@.len() == total,
            total <= usize::MAX,
            csv.len() == total,
            view_exprs(cs@) == csv.skip(m as int),
            view_cmds(out@) == tag_line(csv, idx as int).take(m as int),
            out@.len() == m,
        decreases cs.len(),
    {
        let ghost oldcs = cs@;
        let c = cs.remove(0);
        let ghost oldout = view_cmds(out@);
        out.push((idx, c));
        proof {
            assert(c == oldcs[0]);
            assert(c@ == view_exprs(oldcs)[0]);
            assert(c@ == csv[m as int]);
            assert(cs@ =~= oldcs.drop_first());
            assert(view_exprs(cs@) =~= view_exprs(oldcs).drop_first());
            assert(view_exprs(oldcs).drop_first() =~= csv.skip(m + 1));
            assert(view_cmds(out@) =~= tag_line(csv, idx as int).take(m + 1));
        }
        m = m + 1;
    }
    proof {
        assert(tag_line(csv, idx as int).take(csv.len() as int) =~= tag_line(csv, idx as int));
    }
    out.append(&mut rest);
    proof {
        assert(view_cmds(out@) =~= tag_line(csv, idx as int) + restv);
    }
    Ok(out)
}

/// Parses a whole file into its ordered, line-tagged command list, comments
/// preserved for exact round-trips.  The first malformed line aborts the
/// parse with a structured error carrying its 0-based line and column; no
/// partial list is returned.
pub fn parse_gcode_file(file: &str) -> (r: Result<Vec<(usize, GCodeExpr)>, ParseError>)
    ensures
        match r {
            Ok(v) => spec_parse_file(file@) matches Ok(m) && view_cmds(v@) == m,
            Err(e) => spec_parse_file(file@) == Err::<Seq<(int, GCmd)>, PError>(e@),
        },
{
    let chars = chars_of(file);
    let lines = split_lines_from(&chars, 0);
    proof {
        assert(chars@.skip(0) =~= file@);
    }
    parse_lines_exec(&lines, 0)
}

/// Parses a whole file and drops the comments, for consumers that only
/// execute; the remaining commands and their line tags are unaffected.
pub fn parse_gcode_file_commentless(file: &str) -> (r: Result<
    Vec<(usize, CommentlessGCodeExpr)>,
    ParseError,
>)
    ensures
        match r {
            Ok(v) => spec_parse_file_commentless(file@) matches Ok(m) && view_code_cmds(v@) == m,
            Err(e) => spec_parse_file_commentless(file@) == Err::<Seq<(int, GCmd)>, PError>(e@),
        },
{
    let all = match parse_gcode_file(file) {
        Err(e) => {
            return Err(e);
        },
        Ok(all) => all,
    };
    let ghost av = view_cmds(all@);
    let ghost pred = |p: (int, GCmd)| !is_comment(p.1);
    let mut out: Vec<(usize, CommentlessGCodeExpr)> = Vec::new();
    let mut m: usize = 0;
    proof {
        reveal(Seq::filter);
        assert(av.take(0) =~= Seq::<(int, GCmd)>::empty());
        assert(view_code_cmds(out@) =~= av.take(0).filter(pred));
    }
    #[verifier::loop_isolation(false)]
    while m < all.len()
        invariant
            0 <= m <= all.len(),
            view_code_cmds(out@) == av.take(m as int).filter(pred),
        decreases all.len() - m,
    {
        let ghost oldv = view_code_cmds(out@);
        let l = all[m].0;
        match &all[m].1 {
            GCodeExpr::Code(c) => {
                out.push((l, *c));
            },
            GCodeExpr::Comment(_) => {},
        }
        proof {
            reveal(Seq::filter);
            let t = av.take(m + 1);
            assert(t.drop_last() =~= av.take(m as int));
            assert(t.last() == av[m as int]);
            if !is_comment(av[m as int].1) {
                assert(view_code_cmds(out@) =~= oldv.push(av[m as int]));
            }
        }
        m = m + 1;
    }
    proof {
        assert(av.take(all@.len() as int) =~= av);
    }
    Ok(out)
}

} // verus!
