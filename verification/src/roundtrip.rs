//! The round-trip law: parsing the serialized text of a well-formed command
//! yields exactly that command.

use vstd::prelude::*;

use crate::fixed::RAW_LIMIT;
use crate::gcode::{GCmd, wf_cmd};
use crate::numtext::{is_num_char, lemma_num_round_trip, lemma_num_str_chars, num_str, parse_num};
use crate::parse::{Head, LineError, PError, build_cmd, collect_params, empty_params,
    is_param_tok, is_ws, lemma_first_pos_at, lemma_tok_end_at, letter_allowed, parse_cmds,
    parse_line, parse_lines, PParams, set_param, spec_head_of, spec_lines, spec_parse_file,
    tok_end, tokens_from};
use crate::serialize::{ser_cmd, ser_file, ser_prefix, ser_sep};

verus! {

/// A word the lexer keeps whole: no whitespace, no comment opener, no line
/// break.
pub open spec fn plain_word(w: Seq<char>) -> bool {
    forall|k: int|
        0 <= k < w.len() ==> !is_ws(#[trigger] w[k]) && w[k] != ';' && w[k] != '\n' && w[k] != '\r'
}

/// Words joined by single spaces.
pub open spec fn join_sp(ws: Seq<Seq<char>>) -> Seq<char>
    decreases ws.len(),
{
    if ws.len() == 0 {
        Seq::<char>::empty()
    } else if ws.len() == 1 {
        ws[0]
    } else {
        ws[0] + seq![' '] + join_sp(ws.drop_first())
    }
}

/// The tokens that a run of plain words denotes, starting at `pos`.
pub open spec fn toks_of(ws: Seq<Seq<char>>, pos: int) -> Seq<(int, Seq<char>)>
    decreases ws.len(),
{
    if ws.len() == 0 {
        Seq::<(int, Seq<char>)>::empty()
    } else {
        seq![(pos, ws[0])] + toks_of(ws.drop_first(), pos + ws[0].len() + 1)
    }
}

/// Every word of `ws` is nonempty and plain.
pub open spec fn all_plain(ws: Seq<Seq<char>>) -> bool {
    forall|k: int| 0 <= k < ws.len() ==> (#[trigger] ws[k]).len() >= 1 && plain_word(ws[k])
}

/// One word makes one token.
pub proof fn lemma_toks_singleton(w: Seq<char>, pos: int)
    ensures
        toks_of(seq![w], pos) =~= seq![(pos, w)],
{
    assert(seq![w].drop_first() =~= Seq::<Seq<char>>::empty());
    assert(toks_of(seq![w].drop_first(), pos + w.len() as int + 1) =~= Seq::<
        (int, Seq<char>),
    >::empty());
}

/// Lexing a run of plain words joined by single spaces yields one token per
/// word, at the column the word starts at.
pub proof fn lemma_tokens_words(s: Seq<char>, pos: int, ws: Seq<Seq<char>>)
    requires
        0 <= pos <= s.len(),
        s.subrange(pos, s.len() as int) == join_sp(ws),
        all_plain(ws),
    ensures
        tokens_from(s, pos) == toks_of(ws, pos),
    decreases ws.len(),
{
    let suffix = s.subrange(pos, s.len() as int);
    assert(forall|j: int| 0 <= j < suffix.len() ==> #[trigger] suffix[j] == s[j + pos]);
    if ws.len() == 0 {
        assert(pos == s.len());
    } else {
        let w0 = ws[0];
        assert(w0.len() >= 1 && plain_word(w0));
        let e = pos + w0.len();
        if ws.len() == 1 {
            assert(suffix =~= w0);
            assert(forall|j: int| pos <= j < e ==> s[j] == w0[j - pos]);
            assert(forall|j: int| pos <= j < e ==> !is_ws(s[j]));
            assert(e == s.len());
            lemma_tok_end_at(s, pos, e);
            assert(tok_end(s, pos) == e);
            assert(s.subrange(pos, e) =~= w0);
            assert(tokens_from(s, e) =~= Seq::<(int, Seq<char>)>::empty());
            assert(toks_of(ws.drop_first(), e + 1) =~= Seq::<(int, Seq<char>)>::empty());
            assert(tokens_from(s, pos) =~= toks_of(ws, pos));
        } else {
            let rest = join_sp(ws.drop_first());
            assert(suffix =~= w0 + seq![' '] + rest);
            assert forall|j: int| pos <= j < e implies s[j] == w0[j - pos] by {
                assert(suffix[j - pos] == s[j]);
                assert((w0 + seq![' '] + rest)[j - pos] == w0[j - pos]);
            }
            assert(forall|j: int| pos <= j < e ==> !is_ws(s[j]));
            assert(s[e] == suffix[e - pos]);
            assert(suffix[w0.len() as int] == ' ');
            assert(is_ws(s[e]));
            lemma_tok_end_at(s, pos, e);
            assert(s.subrange(pos, e) =~= w0);
            // after the space, the rest of the words follow
            assert forall|j: int| 0 <= j < rest.len() implies s.subrange(
                e + 1,
                s.len() as int,
            )[j] == rest[j] by {
                assert(s.subrange(e + 1, s.len() as int)[j] == s[e + 1 + j]);
                assert(s[e + 1 + j] == suffix[e + 1 + j - pos]);
                assert(suffix[w0.len() + 1 + j] == rest[j]);
            }
            assert(s.subrange(e + 1, s.len() as int) =~= rest);
            assert(all_plain(ws.drop_first())) by {
                assert(forall|k: int|
                    0 <= k < ws.drop_first().len() ==> #[trigger] ws.drop_first()[k] == ws[k + 1]);
            }
            lemma_tokens_words(s, e + 1, ws.drop_first());
            assert(!is_ws(s[pos]));
            assert(tokens_from(s, pos) =~= seq![(pos, w0)] + tokens_from(s, e));
            assert(tokens_from(s, e) == tokens_from(s, e + 1));
            assert(tokens_from(s, pos) =~= toks_of(ws, pos));
        }
    }
}

/// A parameter word `letter` + number round-trips to its letter and value.
pub proof fn lemma_param_word(letter: char, v: int)
    requires
        letter == 'X' || letter == 'Y' || letter == 'I' || letter == 'J' || letter == 'P'
            || letter == 'S',
        -RAW_LIMIT <= v <= RAW_LIMIT,
    ensures
        is_param_tok(seq![letter] + num_str(v)),
        (seq![letter] + num_str(v))[0] == letter,
        parse_num((seq![letter] + num_str(v)).drop_first()) == Some(v),
        plain_word(seq![letter] + num_str(v)),
        (seq![letter] + num_str(v)).len() >= 2,
{
    let w = seq![letter] + num_str(v);
    lemma_num_str_chars(v);
    lemma_num_round_trip(v);
    assert(w.drop_first() =~= num_str(v));
    assert forall|k: int| 0 <= k < w.len() implies !is_ws(#[trigger] w[k]) && w[k] != ';' && w[k]
        != '\n' && w[k] != '\r' by {
        if k >= 1 {
            assert(w[k] == num_str(v)[k - 1]);
            assert(is_num_char(num_str(v)[k - 1]));
        }
    }
}

/// A file of one line holds exactly that line.
pub proof fn lemma_single_line(s: Seq<char>)
    requires
        s.len() >= 1,
        forall|k: int| 0 <= k < s.len() ==> s[k] != '\n',
    ensures
        spec_lines(s) == seq![s],
{
    lemma_first_pos_at(s, '\n', s.len() as int);
}

/// Parsing a file that consists of one well-formed command's text yields
/// exactly that command, tagged with line 0.
pub proof fn lemma_parse_of_ser(c: GCmd)
    requires
        wf_cmd(c),
    ensures
        spec_parse_file(ser_cmd(c)) == Ok::<Seq<(int, GCmd)>, PError>(seq![(0int, c)]),
{
    let s = ser_cmd(c);
    lemma_ser_cmd_line(c);
    lemma_single_line(s);
    let cs = match parse_line(s) {
        Ok(cs) => cs,
        Err(e) => Seq::<GCmd>::empty(),
    };
    lemma_parse_line_of_ser(c);
    assert(parse_line(s) == Ok::<Seq<GCmd>, LineError>(seq![c]));
    let ls = spec_lines(s);
    assert(ls == seq![s]);
    assert(ls[0] == s);
    assert(parse_lines(ls, 1) == Ok::<Seq<(int, GCmd)>, PError>(Seq::<(int, GCmd)>::empty()));
    assert(parse_lines(ls, 0) matches Ok(m) && m =~= seq![(0int, c)]);
}

/// The serialized text of a well-formed command is one nonempty line.
proof fn lemma_ser_cmd_line(c: GCmd)
    requires
        wf_cmd(c),
    ensures
        ser_cmd(c).len() >= 1,
        forall|k: int| 0 <= k < ser_cmd(c).len() ==> ser_cmd(c)[k] != '\n',
{
    let s = ser_cmd(c);
    match c {
        GCmd::Home => {},
        GCmd::Move { x, y } => {
            lemma_num_str_chars(x);
            lemma_num_str_chars(y);
            assert forall|k: int| 0 <= k < s.len() implies s[k] != '\n' by {
                lemma_move_chars(c, k);
            }
        },
        GCmd::LinMove { x, y } => {
            lemma_num_str_chars(x);
            lemma_num_str_chars(y);
            assert forall|k: int| 0 <= k < s.len() implies s[k] != '\n' by {
                lemma_move_chars(c, k);
            }
        },
        GCmd::Arc { clkw, x, y, i, j } => {
            lemma_num_str_chars(x);
            lemma_num_str_chars(y);
            lemma_num_str_chars(i);
            lemma_num_str_chars(j);
            assert forall|k: int| 0 <= k < s.len() implies s[k] != '\n' by {
                lemma_move_chars(c, k);
            }
        },
        GCmd::Pen { down } => {},
        GCmd::Comment { text } => {
            assert forall|k: int| 0 <= k < s.len() implies s[k] != '\n' by {
                if k >= 1 {
                    assert(s[k] == text[k - 1]);
                }
            }
        },
    }
}

/// Any character of a serialized move or arc is a head character, a space, a
/// parameter letter, or a number character; none is a line break.
proof fn lemma_move_chars(c: GCmd, k: int)
    requires
        0 <= k < ser_cmd(c).len(),
        c is Move || c is LinMove || c is Arc,
    ensures
        ser_cmd(c)[k] != '\n',
{
    match c {
        GCmd::Move { x, y } => {
            let s = ser_cmd(c);
            let nx = num_str(x);
            let ny = num_str(y);
            lemma_num_str_chars(x);
            lemma_num_str_chars(y);
            assert(s =~= seq!['G', '0', ' ', 'X'] + nx + seq![' ', 'Y'] + ny);
            if 4 <= k < 4 + nx.len() {
                assert(s[k] == nx[k - 4]);
                assert(is_num_char(nx[k - 4]));
            } else if 6 + nx.len() <= k {
                assert(s[k] == ny[k - 6 - nx.len()]);
                assert(is_num_char(ny[k - 6 - nx.len()]));
            }
        },
        GCmd::LinMove { x, y } => {
            let s = ser_cmd(c);
            let nx = num_str(x);
            let ny = num_str(y);
            lemma_num_str_chars(x);
            lemma_num_str_chars(y);
            assert(s =~= seq!['G', '1', ' ', 'X'] + nx + seq![' ', 'Y'] + ny);
            if 4 <= k < 4 + nx.len() {
                assert(s[k] == nx[k - 4]);
                assert(is_num_char(nx[k - 4]));
            } else if 6 + nx.len() <= k {
                assert(s[k] == ny[k - 6 - nx.len()]);
                assert(is_num_char(ny[k - 6 - nx.len()]));
            }
        },
        GCmd::Arc { clkw, x, y, i, j } => {
            let s = ser_cmd(c);
            let nx = num_str(x);
            let ny = num_str(y);
            let ni = num_str(i);
            let nj = num_str(j);
            lemma_num_str_chars(x);
            lemma_num_str_chars(y);
            lemma_num_str_chars(i);
            lemma_num_str_chars(j);
            let h: Seq<char> = if clkw {
                seq!['G', '2', ' ', 'X']
            } else {
                seq!['G', '3', ' ', 'X']
            };
            assert(s =~= h + nx + seq![' ', 'Y'] + ny + seq![' ', 'I'] + ni + seq![' ', 'J'] + nj);
            let a = 4 + nx.len();
            let b = a + 2 + ny.len();
            let d = b + 2 + ni.len();
            if 4 <= k < a {
                assert(s[k] == nx[k - 4]);
                assert(is_num_char(nx[k - 4]));
            } else if a + 2 <= k < b {
                assert(s[k] == ny[k - a - 2]);
                assert(is_num_char(ny[k - a - 2]));
            } else if b + 2 <= k < d {
                assert(s[k] == ni[k - b - 2]);
                assert(is_num_char(ni[k - b - 2]));
            } else if d + 2 <= k {
                assert(s[k] == nj[k - d - 2]);
                assert(is_num_char(nj[k - d - 2]));
            }
        },
        _ => {},
    }
}

/// Parsing the single line a well-formed command serializes to yields
/// exactly that command.
proof fn lemma_parse_line_of_ser(c: GCmd)
    requires
        wf_cmd(c),
    ensures
        parse_line(ser_cmd(c)) == Ok::<Seq<GCmd>, LineError>(seq![c]),
{
    let s = ser_cmd(c);
    match c {
        GCmd::Comment { text } => {
            assert(s[0] == ';');
            lemma_first_pos_at(s, ';', 0);
            assert(s.take(0) =~= Seq::<char>::empty());
            assert(tokens_from(s.take(0), 0) =~= Seq::<(int, Seq<char>)>::empty());
            assert(parse_cmds(tokens_from(s.take(0), 0), 0) == Ok::<Seq<GCmd>, LineError>(
                Seq::<GCmd>::empty(),
            ));
            assert(s.skip(1) =~= text);
            assert(parse_line(s) matches Ok(m) && m =~= seq![c]);
        },
        _ => {
            lemma_code_no_semi(c);
            lemma_first_pos_at(s, ';', s.len() as int);
            assert(s.take(s.len() as int) =~= s);
            lemma_code_tokens_parse(c);
        },
    }
}

/// A serialized code command holds no `;`.
proof fn lemma_code_no_semi(c: GCmd)
    requires
        wf_cmd(c),
        !(c is Comment),
    ensures
        forall|k: int| 0 <= k < ser_cmd(c).len() ==> ser_cmd(c)[k] != ';',
{
    let s = ser_cmd(c);
    match c {
        GCmd::Move { x, y } => {
            assert forall|k: int| 0 <= k < s.len() implies s[k] != ';' by {
                lemma_move_chars_semi(c, k);
            }
        },
        GCmd::LinMove { x, y } => {
            assert forall|k: int| 0 <= k < s.len() implies s[k] != ';' by {
                lemma_move_chars_semi(c, k);
            }
        },
        GCmd::Arc { clkw, x, y, i, j } => {
            assert forall|k: int| 0 <= k < s.len() implies s[k] != ';' by {
                lemma_move_chars_semi(c, k);
            }
        },
        _ => {},
    }
}

/// As [`lemma_move_chars`], for the comment opener.
proof fn lemma_move_chars_semi(c: GCmd, k: int)
    requires
        0 <= k < ser_cmd(c).len(),
        c is Move || c is LinMove || c is Arc,
    ensures
        ser_cmd(c)[k] != ';',
{
    match c {
        GCmd::Move { x, y } => {
            let s = ser_cmd(c);
            let nx = num_str(x);
            let ny = num_str(y);
            lemma_num_str_chars(x);
            lemma_num_str_chars(y);
            assert(s =~= seq!['G', '0', ' ', 'X'] + nx + seq![' ', 'Y'] + ny);
            if 4 <= k < 4 + nx.len() {
                assert(s[k] == nx[k - 4]);
                assert(is_num_char(nx[k - 4]));
            } else if 6 + nx.len() <= k {
                assert(s[k] == ny[k - 6 - nx.len()]);
                assert(is_num_char(ny[k - 6 - nx.len()]));
            }
        },
        GCmd::LinMove { x, y } => {
            let s = ser_cmd(c);
            let nx = num_str(x);
            let ny = num_str(y);
            lemma_num_str_chars(x);
            lemma_num_str_chars(y);
            assert(s =~= seq!['G', '1', ' ', 'X'] + nx + seq![' ', 'Y'] + ny);
            if 4 <= k < 4 + nx.len() {
                assert(s[k] == nx[k - 4]);
                assert(is_num_char(nx[k - 4]));
            } else if 6 + nx.len() <= k {
                assert(s[k] == ny[k - 6 - nx.len()]);
                assert(is_num_char(ny[k - 6 - nx.len()]));
            }
        },
        GCmd::Arc { clkw, x, y, i, j } => {
            let s = ser_cmd(c);
            let nx = num_str(x);
            let ny = num_str(y);
            let ni = num_str(i);
            let nj = num_str(j);
            lemma_num_str_chars(x);
            lemma_num_str_chars(y);
            lemma_num_str_chars(i);
            lemma_num_str_chars(j);
            let h: Seq<char> = if clkw {
                seq!['G', '2', ' ', 'X']
            } else {
                seq!['G', '3', ' ', 'X']
            };
            assert(s =~= h + nx + seq![' ', 'Y'] + ny + seq![' ', 'I'] + ni + seq![' ', 'J'] + nj);
            let a = 4 + nx.len();
            let b = a + 2 + ny.len();
            let d = b + 2 + ni.len();
            if 4 <= k < a {
                assert(s[k] == nx[k - 4]);
                assert(is_num_char(nx[k - 4]));
            } else if a + 2 <= k < b {
                assert(s[k] == ny[k - a - 2]);
                assert(is_num_char(ny[k - a - 2]));
            } else if b + 2 <= k < d {
                assert(s[k] == ni[k - b - 2]);
                assert(is_num_char(ni[k - b - 2]));
            } else if d + 2 <= k {
                assert(s[k] == nj[k - d - 2]);
                assert(is_num_char(nj[k - d - 2]));
            }
        },
        _ => {},
    }
}

/// The token stream of a serialized code command parses back to it.
#[verifier::rlimit(100)]
#[verifier::spinoff_prover]
proof fn lemma_code_tokens_parse(c: GCmd)
    requires
        wf_cmd(c),
        !(c is Comment),
    ensures
        parse_cmds(tokens_from(ser_cmd(c), 0), 0) == Ok::<Seq<GCmd>, LineError>(seq![c]),
{
    let s = ser_cmd(c);
    assert(s.subrange(0, s.len() as int) =~= s);
    match c {
        GCmd::Home => {
            let ws = seq![seq!['G', '2', '8']];
            assert(join_sp(ws) =~= s);
            assert(all_plain(ws)) by {
                assert(plain_word(ws[0]));
            }
            lemma_tokens_words(s, 0, ws);
            lemma_toks_singleton(seq!['G', '2', '8'], 0);
            let toks = tokens_from(s, 0);
            assert(toks =~= seq![(0int, seq!['G', '2', '8'])]);
            assert(spec_head_of(toks[0].1) == Some(Head::Home));
            assert(collect_params(toks, 1, Head::Home, empty_params()) == Ok::<
                (PParams, int),
                LineError,
            >((empty_params(), 1)));
            assert(parse_cmds(toks, 1) == Ok::<Seq<GCmd>, LineError>(Seq::<GCmd>::empty()));
            assert(parse_cmds(toks, 0) matches Ok(m) && m =~= seq![c]);
        },
        GCmd::Pen { down } => {
            let hw = seq!['M', '2', '8', '0'];
            let pw = seq!['P'] + num_str(0);
            let sw: Seq<char> = if down {
                seq!['S'] + num_str(50000)
            } else {
                seq!['S'] + num_str(0)
            };
            let ws = seq![hw, pw, sw];
            lemma_param_word('P', 0);
            lemma_param_word('S', 0);
            lemma_param_word('S', 50000);
            assert(num_str(0) =~= seq!['0']);
            assert(num_str(50000) =~= seq!['5', '0']) by {
                assert(num_str(50000) == crate::numtext::dec_str(50nat));
                assert(crate::numtext::dec_str(50nat) =~= crate::numtext::dec_str(5nat).push('0'));
                assert(crate::numtext::dec_str(5nat) =~= seq!['5']);
            }
            assert(ws.drop_first() =~= seq![pw, sw]);
            assert(seq![pw, sw].drop_first() =~= seq![sw]);
            assert(join_sp(seq![sw]) == sw);
            assert(join_sp(seq![pw, sw]) =~= pw + seq![' '] + sw);
            assert(join_sp(ws) =~= s);
            assert(all_plain(ws)) by {
                assert(plain_word(hw));
                assert(ws[0] == hw && ws[1] == pw && ws[2] == sw);
            }
            lemma_tokens_words(s, 0, ws);
            let toks = tokens_from(s, 0);
            lemma_toks_singleton(sw, 5 + pw.len() as int + 1);
            assert(seq![pw, sw].drop_first() =~= seq![sw]);
            assert(toks_of(seq![pw, sw], 5) =~= seq![(5int, pw), (5 + pw.len() as int + 1, sw)]);
            assert(ws.drop_first() =~= seq![pw, sw]);
            assert(toks =~= seq![(0int, hw), (5int, pw), (5 + pw.len() as int + 1, sw)]);
            assert(spec_head_of(hw) == Some(Head::Pen));
            assert(!(hw == seq!['G', '2', '8']));
            let p1 = set_param(empty_params(), 'P', 5, 0);
            let sval: int = if down {
                50000
            } else {
                0
            };
            let p2 = set_param(p1, 'S', 5 + pw.len() as int + 1, sval);
            assert(parse_num(pw.drop_first()) == Some(0int));
            assert(parse_num(sw.drop_first()) == Some(sval));
            assert(collect_params(toks, 1, Head::Pen, empty_params()) == Ok::<
                (PParams, int),
                LineError,
            >((p2, 3))) by {
                assert(letter_allowed(Head::Pen, 'P'));
                assert(letter_allowed(Head::Pen, 'S'));
                assert(collect_params(toks, 3, Head::Pen, p2) == Ok::<(PParams, int), LineError>(
                    (p2, 3),
                ));
                assert(collect_params(toks, 2, Head::Pen, p1) == Ok::<(PParams, int), LineError>(
                    (p2, 3),
                ));
            }
            assert(build_cmd(Head::Pen, 0, p2) == Ok::<GCmd, LineError>(c));
            assert(parse_cmds(toks, 3) == Ok::<Seq<GCmd>, LineError>(Seq::<GCmd>::empty()));
            assert(parse_cmds(toks, 0) matches Ok(m) && m =~= seq![c]);
        },
        GCmd::Move { x, y } => {
            lemma_xy_parse(c, seq!['G', '0'], x, y);
        },
        GCmd::LinMove { x, y } => {
            lemma_xy_parse(c, seq!['G', '1'], x, y);
        },
        GCmd::Arc { clkw, x, y, i, j } => {
            lemma_arc_parse(c, clkw, x, y, i, j);
        },
        GCmd::Comment { text } => {},
    }
}

/// Joining three words inserts two spaces.
#[verifier::rlimit(100)]
#[verifier::spinoff_prover]
proof fn lemma_join3(a: Seq<char>, b: Seq<char>, c: Seq<char>)
    ensures
        join_sp(seq![a, b, c]) == a + seq![' '] + b + seq![' '] + c,
{
    assert(seq![a, b, c].drop_first() =~= seq![b, c]);
    assert(seq![b, c].drop_first() =~= seq![c]);
    assert(join_sp(seq![c]) == c);
    assert(join_sp(seq![b, c]) =~= b + seq![' '] + c);
    assert(join_sp(seq![a, b, c]) =~= a + seq![' '] + b + seq![' '] + c);
}

/// Round trip of the token stream of a move command.
#[verifier::rlimit(100)]
#[verifier::spinoff_prover]
proof fn lemma_xy_tokens(c: GCmd, hw: Seq<char>, x: int, y: int)
    requires
        wf_cmd(c),
        (c == (GCmd::Move { x, y }) && hw == seq!['G', '0']) || (c == (GCmd::LinMove { x, y })
            && hw == seq!['G', '1']),
    ensures
        ({
            let xw = seq!['X'] + num_str(x);
            let yw = seq!['Y'] + num_str(y);
            tokens_from(ser_cmd(c), 0) == seq![
                (0int, hw),
                (3int, xw),
                (3 + xw.len() as int + 1, yw),
            ]
        }),
{
    let s = ser_cmd(c);
    let xw = seq!['X'] + num_str(x);
    let yw = seq!['Y'] + num_str(y);
    let ws = seq![hw, xw, yw];
    lemma_param_word('X', x);
    lemma_param_word('Y', y);
    lemma_join3(hw, xw, yw);
    if c is Move {
        assert(s =~= seq!['G', '0'] + seq![' '] + xw + seq![' '] + yw);
    } else {
        assert(s =~= seq!['G', '1'] + seq![' '] + xw + seq![' '] + yw);
    }
    assert(join_sp(seq![hw, xw, yw]) == s);
    assert(all_plain(ws)) by {
        assert(plain_word(hw));
        assert(ws[0] == hw && ws[1] == xw && ws[2] == yw);
    }
    assert(s.subrange(0, s.len() as int) =~= s);
    lemma_tokens_words(s, 0, ws);
    let xcol = 3int;
    let ycol = 3 + xw.len() as int + 1;
    assert(ws.drop_first() =~= seq![xw, yw]);
    assert(seq![xw, yw].drop_first() =~= seq![yw]);
    lemma_toks_singleton(yw, ycol);
    assert(toks_of(seq![xw, yw], xcol) =~= seq![(xcol, xw), (ycol, yw)]);
    assert(tokens_from(s, 0) =~= seq![(0int, hw), (xcol, xw), (ycol, yw)]);
}

/// Round trip of the token stream of a move command.
#[verifier::rlimit(100)]
#[verifier::spinoff_prover]
proof fn lemma_xy_parse(c: GCmd, hw: Seq<char>, x: int, y: int)
    requires
        wf_cmd(c),
        (c == (GCmd::Move { x, y }) && hw == seq!['G', '0']) || (c == (GCmd::LinMove { x, y })
            && hw == seq!['G', '1']),
    ensures
        parse_cmds(tokens_from(ser_cmd(c), 0), 0) == Ok::<Seq<GCmd>, LineError>(seq![c]),
{
    let s = ser_cmd(c);
    let xw = seq!['X'] + num_str(x);
    let yw = seq!['Y'] + num_str(y);
    lemma_param_word('X', x);
    lemma_param_word('Y', y);
    lemma_xy_tokens(c, hw, x, y);
    let toks = tokens_from(s, 0);
    let xcol = 3int;
    let ycol = 3 + xw.len() as int + 1;
    assert(toks == seq![(0int, hw), (xcol, xw), (ycol, yw)]);
    let h = spec_head_of(hw)->Some_0;
    assert(spec_head_of(hw) is Some);
    let p1 = set_param(empty_params(), 'X', xcol, x);
    let p2 = set_param(p1, 'Y', ycol, y);
    assert(letter_allowed(h, 'X'));
    assert(letter_allowed(h, 'Y'));
    lemma_collect_step(toks, 1, h, empty_params(), 'X', x);
    lemma_collect_step(toks, 2, h, p1, 'Y', y);
    assert(collect_params(toks, 3, h, p2) == Ok::<(PParams, int), LineError>((p2, 3)));
    assert(collect_params(toks, 1, h, empty_params()) == Ok::<(PParams, int), LineError>(
        (p2, 3),
    ));
    assert(build_cmd(h, 0, p2) == Ok::<GCmd, LineError>(c));
    assert(parse_cmds(toks, 3) == Ok::<Seq<GCmd>, LineError>(Seq::<GCmd>::empty()));
    assert(parse_cmds(toks, 0) matches Ok(m) && m =~= seq![c]);
}

/// Joining five words inserts four spaces.
#[verifier::rlimit(100)]
#[verifier::spinoff_prover]
proof fn lemma_join5(a: Seq<char>, b: Seq<char>, c: Seq<char>, d: Seq<char>, e: Seq<char>)
    ensures
        join_sp(seq![a, b, c, d, e]) == a + seq![' '] + b + seq![' '] + c + seq![' '] + d + seq![
            ' ',
        ] + e,
{
    assert(seq![a, b, c, d, e].drop_first() =~= seq![b, c, d, e]);
    assert(seq![b, c, d, e].drop_first() =~= seq![c, d, e]);
    assert(seq![c, d, e].drop_first() =~= seq![d, e]);
    assert(seq![d, e].drop_first() =~= seq![e]);
    assert(join_sp(seq![e]) == e);
    assert(join_sp(seq![d, e]) =~= d + seq![' '] + e);
    assert(join_sp(seq![c, d, e]) =~= c + seq![' '] + d + seq![' '] + e);
    assert(join_sp(seq![b, c, d, e]) =~= b + seq![' '] + c + seq![' '] + d + seq![' '] + e);
    assert(join_sp(seq![a, b, c, d, e]) =~= a + seq![' '] + b + seq![' '] + c + seq![' '] + d
        + seq![' '] + e);
}

/// The serialized arc command is its five words joined by spaces.
#[verifier::rlimit(100)]
#[verifier::spinoff_prover]
proof fn lemma_arc_words(c: GCmd, clkw: bool, x: int, y: int, i: int, j: int)
    requires
        wf_cmd(c),
        c == (GCmd::Arc { clkw, x, y, i, j }),
    ensures
        ({
            let hw: Seq<char> = if clkw {
                seq!['G', '2']
            } else {
                seq!['G', '3']
            };
            let ws = seq![
                hw,
                seq!['X'] + num_str(x),
                seq!['Y'] + num_str(y),
                seq!['I'] + num_str(i),
                seq!['J'] + num_str(j),
            ];
            join_sp(ws) == ser_cmd(c) && all_plain(ws)
        }),
{
    let s = ser_cmd(c);
    let hw: Seq<char> = if clkw {
        seq!['G', '2']
    } else {
        seq!['G', '3']
    };
    let xw = seq!['X'] + num_str(x);
    let yw = seq!['Y'] + num_str(y);
    let iw = seq!['I'] + num_str(i);
    let jw = seq!['J'] + num_str(j);
    let ws = seq![hw, xw, yw, iw, jw];
    lemma_param_word('X', x);
    lemma_param_word('Y', y);
    lemma_param_word('I', i);
    lemma_param_word('J', j);
    lemma_join5(hw, xw, yw, iw, jw);
    if clkw {
        assert(s =~= seq!['G', '2'] + seq![' '] + xw + seq![' '] + yw + seq![' '] + iw + seq![
            ' ',
        ] + jw);
    } else {
        assert(s =~= seq!['G', '3'] + seq![' '] + xw + seq![' '] + yw + seq![' '] + iw + seq![
            ' ',
        ] + jw);
    }
    assert(join_sp(ws) == s);
    assert(all_plain(ws)) by {
        assert(plain_word(hw));
        assert(ws[0] == hw && ws[1] == xw && ws[2] == yw && ws[3] == iw && ws[4] == jw);
    }
}

/// The token stream of a serialized arc command.
#[verifier::rlimit(100)]
#[verifier::spinoff_prover]
proof fn lemma_arc_tokens(c: GCmd, clkw: bool, x: int, y: int, i: int, j: int)
    requires
        wf_cmd(c),
        c == (GCmd::Arc { clkw, x, y, i, j }),
    ensures
        ({
            let hw: Seq<char> = if clkw {
                seq!['G', '2']
            } else {
                seq!['G', '3']
            };
            let xw = seq!['X'] + num_str(x);
            let yw = seq!['Y'] + num_str(y);
            let iw = seq!['I'] + num_str(i);
            let jw = seq!['J'] + num_str(j);
            let xcol = 3int;
            let ycol = xcol + xw.len() as int + 1;
            let icol = ycol + yw.len() as int + 1;
            let jcol = icol + iw.len() as int + 1;
            tokens_from(ser_cmd(c), 0) == seq![
                (0int, hw),
                (xcol, xw),
                (ycol, yw),
                (icol, iw),
                (jcol, jw),
            ]
        }),
{
    let s = ser_cmd(c);
    let hw: Seq<char> = if clkw {
        seq!['G', '2']
    } else {
        seq!['G', '3']
    };
    let xw = seq!['X'] + num_str(x);
    let yw = seq!['Y'] + num_str(y);
    let iw = seq!['I'] + num_str(i);
    let jw = seq!['J'] + num_str(j);
    let ws = seq![hw, xw, yw, iw, jw];
    let xcol = 3int;
    let ycol = xcol + xw.len() as int + 1;
    let icol = ycol + yw.len() as int + 1;
    let jcol = icol + iw.len() as int + 1;
    lemma_arc_words(c, clkw, x, y, i, j);
    assert(s.subrange(0, s.len() as int) =~= s);
    lemma_tokens_words(s, 0, ws);
    assert(ws.drop_first() =~= seq![xw, yw, iw, jw]);
    assert(seq![xw, yw, iw, jw].drop_first() =~= seq![yw, iw, jw]);
    assert(seq![yw, iw, jw].drop_first() =~= seq![iw, jw]);
    assert(seq![iw, jw].drop_first() =~= seq![jw]);
    lemma_toks_singleton(jw, jcol);
    assert(toks_of(seq![iw, jw], icol) =~= seq![(icol, iw), (jcol, jw)]);
    assert(toks_of(seq![yw, iw, jw], ycol) =~= seq![(ycol, yw), (icol, iw), (jcol, jw)]);
    assert(toks_of(seq![xw, yw, iw, jw], xcol) =~= seq![
        (xcol, xw),
        (ycol, yw),
        (icol, iw),
        (jcol, jw),
    ]);
    assert(tokens_from(s, 0) =~= seq![(0int, hw), (xcol, xw), (ycol, yw), (icol, iw), (jcol, jw)]);
}

/// One step of parameter collection over a parameter word.
proof fn lemma_collect_step(
    toks: Seq<(int, Seq<char>)>,
    idx: int,
    h: Head,
    acc: PParams,
    letter: char,
    v: int,
)
    requires
        0 <= idx < toks.len(),
        letter == 'X' || letter == 'Y' || letter == 'I' || letter == 'J' || letter == 'P'
            || letter == 'S',
        letter_allowed(h, letter),
        -RAW_LIMIT <= v <= RAW_LIMIT,
        toks[idx].1 == seq![letter] + num_str(v),
    ensures
        collect_params(toks, idx, h, acc) == collect_params(
            toks,
            idx + 1,
            h,
            set_param(acc, letter, toks[idx].0, v),
        ),
{
    lemma_param_word(letter, v);
}

/// Round trip of the token stream of an arc command.
#[verifier::rlimit(100)]
#[verifier::spinoff_prover]
proof fn lemma_arc_parse(c: GCmd, clkw: bool, x: int, y: int, i: int, j: int)
    requires
        wf_cmd(c),
        c == (GCmd::Arc { clkw, x, y, i, j }),
    ensures
        parse_cmds(tokens_from(ser_cmd(c), 0), 0) == Ok::<Seq<GCmd>, LineError>(seq![c]),
{
    let s = ser_cmd(c);
    let hw: Seq<char> = if clkw {
        seq!['G', '2']
    } else {
        seq!['G', '3']
    };
    let xw = seq!['X'] + num_str(x);
    let yw = seq!['Y'] + num_str(y);
    let iw = seq!['I'] + num_str(i);
    let jw = seq!['J'] + num_str(j);
    lemma_param_word('X', x);
    lemma_param_word('Y', y);
    lemma_param_word('I', i);
    lemma_param_word('J', j);
    let xcol = 3int;
    let ycol = xcol + xw.len() as int + 1;
    let icol = ycol + yw.len() as int + 1;
    let jcol = icol + iw.len() as int + 1;
    lemma_arc_tokens(c, clkw, x, y, i, j);
    let toks = tokens_from(s, 0);
    assert(toks == seq![(0int, hw), (xcol, xw), (ycol, yw), (icol, iw), (jcol, jw)]);
    let h: Head = if clkw {
        Head::ArcCw
    } else {
        Head::ArcCcw
    };
    assert(spec_head_of(hw) == Some(h)) by {
        assert(hw.len() == 2);
        assert(hw[0] == 'G');
        assert(hw != seq!['G', '2', '8']) by {
            assert(seq!['G', '2', '8'].len() == 3);
        }
        if clkw {
            assert(hw[1] == '2');
            assert(hw != seq!['G', '0']) by {
                assert(seq!['G', '0'][1] == '0');
            }
            assert(hw != seq!['G', '1']) by {
                assert(seq!['G', '1'][1] == '1');
            }
            assert(hw == seq!['G', '2']) by {
                assert(hw =~= seq!['G', '2']);
            }
        } else {
            assert(hw[1] == '3');
            assert(hw != seq!['G', '0']) by {
                assert(seq!['G', '0'][1] == '0');
            }
            assert(hw != seq!['G', '1']) by {
                assert(seq!['G', '1'][1] == '1');
            }
            assert(hw != seq!['G', '2']) by {
                assert(seq!['G', '2'][1] == '2');
            }
            assert(hw == seq!['G', '3']) by {
                assert(hw =~= seq!['G', '3']);
            }
        }
    }
    let p1 = set_param(empty_params(), 'X', xcol, x);
    let p2 = set_param(p1, 'Y', ycol, y);
    let p3 = set_param(p2, 'I', icol, i);
    let p4 = set_param(p3, 'J', jcol, j);
    assert(parse_num(xw.drop_first()) == Some(x));
    assert(parse_num(yw.drop_first()) == Some(y));
    assert(parse_num(iw.drop_first()) == Some(i));
    assert(parse_num(jw.drop_first()) == Some(j));
    assert(letter_allowed(h, 'X') && letter_allowed(h, 'Y') && letter_allowed(h, 'I')
        && letter_allowed(h, 'J'));
    lemma_collect_step(toks, 1, h, empty_params(), 'X', x);
    lemma_collect_step(toks, 2, h, p1, 'Y', y);
    lemma_collect_step(toks, 3, h, p2, 'I', i);
    lemma_collect_step(toks, 4, h, p3, 'J', j);
    assert(collect_params(toks, 5, h, p4) == Ok::<(PParams, int), LineError>((p4, 5)));
    assert(collect_params(toks, 1, h, empty_params()) == Ok::<(PParams, int), LineError>(
        (p4, 5),
    ));
    assert(build_cmd(h, 0, p4) == Ok::<GCmd, LineError>(c));
    assert(parse_cmds(toks, 5) == Ok::<Seq<GCmd>, LineError>(Seq::<GCmd>::empty()));
    assert(parse_cmds(toks, 0) matches Ok(m) && m =~= seq![c]);
}

/// Round-trip law: for every syntactically valid command `c`, serializing
/// the one-command list `[(0, c)]` and parsing the text back yields exactly
/// `[(0, c)]`.
pub proof fn lemma_round_trip(c: GCmd)
    requires
        wf_cmd(c),
    ensures
        spec_parse_file(ser_file(seq![(0int, c)])) == Ok::<Seq<(int, GCmd)>, PError>(
            seq![(0int, c)],
        ),
{
    let cmds = seq![(0int, c)];
    assert(ser_file(cmds) == ser_prefix(cmds, 1));
    assert(ser_sep(cmds, 0) =~= Seq::<char>::empty());
    assert(ser_prefix(cmds, 0) =~= Seq::<char>::empty());
    assert(ser_prefix(cmds, 1) =~= ser_cmd(c));
    lemma_parse_of_ser(c);
}

} // verus!
