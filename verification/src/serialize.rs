//! Serialization of commands back to canonical text.
//!
//! Each command maps to the exact head-and-parameter form the grammar reads:
//! `G2 X{x} Y{y} I{i} J{j}` for a clockwise arc, fixed pen texts for `M280`.
//! Whole-file serialization groups consecutive commands that share a source
//! line onto one output line, inserting a newline only when the line index
//! changes and a single space between commands of one line.

use vstd::prelude::*;
use vstd::string::StringExecFns;

use crate::fixed::Fixed;
use crate::gcode::{CommentlessGCodeExpr, GCmd, GCodeExpr, view_cmds};
use crate::numtext::{num_str, push_num};

verus! {

/// Canonical text of one command.
pub open spec fn ser_cmd(g: GCmd) -> Seq<char> {
    match g {
        GCmd::Home => seq!['G', '2', '8'],
        GCmd::Move { x, y } => seq!['G', '0', ' ', 'X'] + num_str(x) + seq![' ', 'Y'] + num_str(y),
        GCmd::LinMove { x, y } => seq!['G', '1', ' ', 'X'] + num_str(x) + seq![' ', 'Y'] + num_str(
            y,
        ),
        GCmd::Arc { clkw, x, y, i, j } => (if clkw {
            seq!['G', '2', ' ', 'X']
        } else {
            seq!['G', '3', ' ', 'X']
        }) + num_str(x) + seq![' ', 'Y'] + num_str(y) + seq![' ', 'I'] + num_str(i) + seq![
            ' ',
            'J',
        ] + num_str(j),
        GCmd::Pen { down } => if down {
            seq!['M', '2', '8', '0', ' ', 'P', '0', ' ', 'S', '5', '0']
        } else {
            seq!['M', '2', '8', '0', ' ', 'P', '0', ' ', 'S', '0']
        },
        GCmd::Comment { text } => seq![';'] + text,
    }
}

/// The line tag the command before index `m` carries, `0` before the first.
pub open spec fn line_before(cmds: Seq<(int, GCmd)>, m: int) -> int {
    if m <= 0 {
        0
    } else {
        cmds[m - 1].0
    }
}

/// The separator written before command `k` of a file: a newline when its
/// line tag differs from the one before, a space between two commands that
/// share a line, nothing before the very first command of the first line.
pub open spec fn ser_sep(cmds: Seq<(int, GCmd)>, k: int) -> Seq<char> {
    if cmds[k].0 != line_before(cmds, k) {
        seq!['\n']
    } else if k > 0 {
        seq![' ']
    } else {
        Seq::<char>::empty()
    }
}

/// Text of the first `m` commands of a file.
pub open spec fn ser_prefix(cmds: Seq<(int, GCmd)>, m: int) -> Seq<char>
    decreases m,
{
    if m <= 0 {
        Seq::<char>::empty()
    } else {
        ser_prefix(cmds, m - 1) + ser_sep(cmds, m - 1) + ser_cmd(cmds[m - 1].1)
    }
}

/// Text of a whole line-tagged command list.
pub open spec fn ser_file(cmds: Seq<(int, GCmd)>) -> Seq<char> {
    ser_prefix(cmds, cmds.len() as int)
}

impl CommentlessGCodeExpr {
    /// The canonical text of this command.
    pub fn as_str(&self) -> (r: String)
        ensures
            r@ == ser_cmd(self@),
    {
        let mut s = String::new();
        proof {
            reveal_strlit("G28");
            reveal_strlit("G0 X");
            reveal_strlit("G1 X");
            reveal_strlit("G2 X");
            reveal_strlit("G3 X");
            reveal_strlit(" Y");
            reveal_strlit(" I");
            reveal_strlit(" J");
            reveal_strlit("M280 P0 S50");
            reveal_strlit("M280 P0 S0");
        }
        match *self {
            CommentlessGCodeExpr::Home => {
                s.append("G28");
                proof {
                    assert(s@ =~= ser_cmd(self@));
                }
            },
            CommentlessGCodeExpr::Move { x, y } => {
                s.append("G0 X");
                push_num(&mut s, x);
                s.append(" Y");
                push_num(&mut s, y);
                proof {
                    assert(s@ =~= ser_cmd(self@));
                }
            },
            CommentlessGCodeExpr::LinMove { x, y } => {
                s.append("G1 X");
                push_num(&mut s, x);
                s.append(" Y");
                push_num(&mut s, y);
                proof {
                    assert(s@ =~= ser_cmd(self@));
                }
            },
            CommentlessGCodeExpr::Arc { clkw, x, y, i, j } => {
                if clkw {
                    s.append("G2 X");
                } else {
                    s.append("G3 X");
                }
                push_num(&mut s, x);
                s.append(" Y");
                push_num(&mut s, y);
                s.append(" I");
                push_num(&mut s, i);
                s.append(" J");
                push_num(&mut s, j);
                proof {
                    assert(s@ =~= ser_cmd(self@));
                }
            },
            CommentlessGCodeExpr::Pen(down) => {
                if down {
                    s.append("M280 P0 S50");
                } else {
                    s.append("M280 P0 S0");
                }
                proof {
                    assert(s@ =~= ser_cmd(self@));
                }
            },
        }
        s
    }
}

impl GCodeExpr {
    /// The canonical text of this command; a comment keeps its text after
    /// the `;` that reopens it.
    pub fn as_str(&self) -> (r: String)
        ensures
            r@ == ser_cmd(self@),
    {
        match self {
            GCodeExpr::Code(c) => c.as_str(),
            GCodeExpr::Comment(text) => {
                let mut s = String::new();
                proof {
                    reveal_strlit(";");
                }
                s.append(";");
                s.append(text.as_str());
                proof {
                    assert(s@ =~= ser_cmd(self@));
                }
                s
            },
        }
    }
}

/// Serializes a whole line-tagged command list, reproducing the original
/// line grouping: consecutive commands that share a line stand on one
/// output line.
#[verifier::loop_isolation(false)]
pub fn serialize_commands(cmds: &Vec<(usize, GCodeExpr)>) -> (r: String)
    ensures
        r@ == ser_file(view_cmds(cmds@)),
{
    let ghost cv = view_cmds(cmds@);
    let mut s = String::new();
    let mut last_l: usize = 0;
    let mut m: usize = 0;
    proof {
        reveal_strlit("\n");
        reveal_strlit(" ");
        assert(("\n")@ =~= seq!['\n']);
        assert((" ")@ =~= seq![' ']);
    }
    while m < cmds.len()
        invariant
            0 <= m <= cmds.len(),
            s@ == ser_prefix(cv, m as int),
            last_l as int == line_before(cv, m as int),
        decreases cmds.len() - m,
    {
        let l = cmds[m].0;
        proof {
            assert(cv[m as int] == (cmds@[m as int].0 as int, cmds@[m as int].1@));
        }
        if l != last_l {
            s.append("\n");
        } else if m > 0 {
            s.append(" ");
        }
        let t = cmds[m].1.as_str();
        s.append(t.as_str());
        proof {
            assert(s@ =~= ser_prefix(cv, m + 1));
        }
        last_l = l;
        m = m + 1;
    }
    s
}

/// Text of commands joined by single newlines.
pub open spec fn ser_joined(cs: Seq<GCmd>, m: int) -> Seq<char>
    decreases m,
{
    if m <= 0 {
        Seq::<char>::empty()
    } else if m == 1 {
        ser_cmd(cs[0])
    } else {
        ser_joined(cs, m - 1) + seq!['\n'] + ser_cmd(cs[m - 1])
    }
}

/// The content an append-based resave writes: the original text, a literal
/// separator comment line, then the new commands one per line.
#[verifier::loop_isolation(false)]
pub fn resave_content(oldfile: &str, commands: &Vec<CommentlessGCodeExpr>) -> (r: String)
    ensures
        r@ == oldfile@ + seq!['\n'] + ser_cmd(
            GCmd::Comment { text: (" added by gcodeplot")@ },
        ) + seq!['\n'] + ser_joined(
            commands@.map_values(|c: CommentlessGCodeExpr| c@),
            commands@.len() as int,
        ),
{
    let ghost cv = commands@.map_values(|c: CommentlessGCodeExpr| c@);
    let mut s = String::new();
    s.append(oldfile);
    proof {
        reveal_strlit("\n; added by gcodeplot\n");
        reveal_strlit("\n");
        reveal_strlit(";");
        reveal_strlit(" added by gcodeplot");
        assert(("\n; added by gcodeplot\n")@ =~= seq!['\n'] + seq![';'] + (
        " added by gcodeplot")@ + seq!['\n']);
    }
    s.append("\n; added by gcodeplot\n");
    let mut m: usize = 0;
    let ghost base = s@;
    while m < commands.len()
        invariant
            0 <= m <= commands.len(),
            s@ == base + ser_joined(cv, m as int),
        decreases commands.len() - m,
    {
        if m > 0 {
            s.append("\n");
        }
        let t = commands[m].as_str();
        s.append(t.as_str());
        proof {
            assert(cv[m as int] == commands@[m as int]@);
            assert(s@ =~= base + ser_joined(cv, m + 1));
        }
        m = m + 1;
    }
    s
}

} // verus!
