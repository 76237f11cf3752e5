//! The command model of the plotter dialect.
//!
//! A file parses to an ordered list of commands, each tagged with its 0-based
//! source line.  The mathematical model of a command is [`GCmd`], over
//! unbounded integers (raw thousandths) and character sequences; the
//! executable types [`CommentlessGCodeExpr`] and [`GCodeExpr`] view into it.

use vstd::prelude::*;

use crate::fixed::{Fixed, RAW_LIMIT};

verus! {

/// Mathematical model of a command.  Coordinates are in raw thousandths.
/// An arc's `(i, j)` center offset is relative to the command's start point,
/// never absolute.
pub ghost enum GCmd {
    Home,
    Move { x: int, y: int },
    LinMove { x: int, y: int },
    Arc { clkw: bool, x: int, y: int, i: int, j: int },
    Pen { down: bool },
    Comment { text: Seq<char> },
}

/// A parsed command without comments, for consumers that only execute.
#[derive(Clone, Copy, PartialEq, Eq, Structural, Debug)]
pub enum CommentlessGCodeExpr {
    Home,
    Move { x: Fixed, y: Fixed },
    LinMove { x: Fixed, y: Fixed },
    Arc { clkw: bool, x: Fixed, y: Fixed, i: Fixed, j: Fixed },
    Pen(bool),
}

/// A parsed command, comments preserved for exact round-trips.
#[derive(Debug)]
pub enum GCodeExpr {
    Code(CommentlessGCodeExpr),
    Comment(String),
}

impl View for CommentlessGCodeExpr {
    type V = GCmd;

    open spec fn view(&self) -> GCmd {
        match *self {
            CommentlessGCodeExpr::Home => GCmd::Home,
            CommentlessGCodeExpr::Move { x, y } => GCmd::Move { x: x@, y: y@ },
            CommentlessGCodeExpr::LinMove { x, y } => GCmd::LinMove { x: x@, y: y@ },
            CommentlessGCodeExpr::Arc { clkw, x, y, i, j } => GCmd::Arc {
                clkw,
                x: x@,
                y: y@,
                i: i@,
                j: j@,
            },
            CommentlessGCodeExpr::Pen(down) => GCmd::Pen { down },
        }
    }
}

impl View for GCodeExpr {
    type V = GCmd;

    open spec fn view(&self) -> GCmd {
        match self {
            GCodeExpr::Code(c) => c@,
            GCodeExpr::Comment(s) => GCmd::Comment { text: s@ },
        }
    }
}

impl PartialEq for GCodeExpr {
    fn eq(&self, other: &GCodeExpr) -> (r: bool) {
        proof {
            lemma_view_injective(self, other);
        }
        match (self, other) {
            (GCodeExpr::Code(a), GCodeExpr::Code(b)) => *a == *b,
            (GCodeExpr::Comment(a), GCodeExpr::Comment(b)) => *a == *b,
            _ => false,
        }
    }
}

/// Two commands have equal views exactly when they are equal values; for
/// comments, equal up to the text they hold.
proof fn lemma_view_injective(a: &GCodeExpr, b: &GCodeExpr)
    ensures
        a@ == b@ <==> match (a, b) {
            (GCodeExpr::Code(x), GCodeExpr::Code(y)) => x == y,
            (GCodeExpr::Comment(x), GCodeExpr::Comment(y)) => x@ == y@,
            _ => false,
        },
{
    match (a, b) {
        (GCodeExpr::Code(x), GCodeExpr::Code(y)) => {
            match (x, y) {
                (CommentlessGCodeExpr::Home, CommentlessGCodeExpr::Home) => {},
                (
                    CommentlessGCodeExpr::Move { x: ax, y: ay },
                    CommentlessGCodeExpr::Move { x: bx, y: by },
                ) => {},
                (
                    CommentlessGCodeExpr::LinMove { x: ax, y: ay },
                    CommentlessGCodeExpr::LinMove { x: bx, y: by },
                ) => {},
                (
                    CommentlessGCodeExpr::Arc { clkw: ac, x: ax, y: ay, i: ai, j: aj },
                    CommentlessGCodeExpr::Arc { clkw: bc, x: bx, y: by, i: bi, j: bj },
                ) => {},
                (CommentlessGCodeExpr::Pen(ad), CommentlessGCodeExpr::Pen(bd)) => {},
                _ => {},
            }
        },
        _ => {},
    }
}

impl vstd::std_specs::cmp::PartialEqSpecImpl for GCodeExpr {
    open spec fn obeys_eq_spec() -> bool {
        true
    }

    open spec fn eq_spec(&self, other: &GCodeExpr) -> bool {
        self@ == other@
    }
}

/// Whether the model command is a comment.
pub open spec fn is_comment(g: GCmd) -> bool {
    g is Comment
}

/// A coordinate the dialect can carry: within the parser's magnitude bound.
pub open spec fn wf_coord(v: int) -> bool {
    -RAW_LIMIT <= v <= RAW_LIMIT
}

/// Well-formed model command: every coordinate within bounds, and comment
/// text free of line breaks (a comment runs to the end of its line).
pub open spec fn wf_cmd(g: GCmd) -> bool {
    match g {
        GCmd::Home => true,
        GCmd::Move { x, y } => wf_coord(x) && wf_coord(y),
        GCmd::LinMove { x, y } => wf_coord(x) && wf_coord(y),
        GCmd::Arc { clkw, x, y, i, j } => wf_coord(x) && wf_coord(y) && wf_coord(i) && wf_coord(
            j,
        ),
        GCmd::Pen { down } => true,
        GCmd::Comment { text } => forall|k: int|
            0 <= k < text.len() ==> text[k] != '\n' && text[k] != '\r',
    }
}

/// The view of a line-tagged command list.
pub open spec fn view_cmds(v: Seq<(usize, GCodeExpr)>) -> Seq<(int, GCmd)> {
    v.map_values(|p: (usize, GCodeExpr)| (p.0 as int, p.1@))
}

/// The view of a line-tagged commentless command list.
pub open spec fn view_code_cmds(v: Seq<(usize, CommentlessGCodeExpr)>) -> Seq<(int, GCmd)> {
    v.map_values(|p: (usize, CommentlessGCodeExpr)| (p.0 as int, p.1@))
}

/// One replay step: where the pen stands after `g` runs from `p`.
pub open spec fn replay_step(p: (int, int), g: GCmd) -> (int, int) {
    match g {
        GCmd::Home => (0, 0),
        GCmd::Move { x, y } => (x, y),
        GCmd::LinMove { x, y } => (x, y),
        GCmd::Arc { clkw, x, y, i, j } => (x, y),
        GCmd::Pen { down } => p,
        GCmd::Comment { text } => p,
    }
}

/// The current point after replaying `cmds` in order from the origin.
/// Replay order is execution order and must never be reordered.
pub open spec fn replay_point(cmds: Seq<GCmd>) -> (int, int)
    decreases cmds.len(),
{
    if cmds.len() == 0 {
        (0, 0)
    } else {
        replay_step(replay_point(cmds.drop_last()), cmds.last())
    }
}

/// Replays a commentless command list from the origin and returns the point
/// the pen stands on after the last command: the "current point" that the
/// next command, in particular an arc, starts from.
pub fn current_point(cmds: &Vec<(usize, CommentlessGCodeExpr)>) -> (r: (Fixed, Fixed))
    ensures
        (r.0@, r.1@) == replay_point(view_code_cmds(cmds@).map_values(|p: (int, GCmd)| p.1)),
{
    let ghost all = view_code_cmds(cmds@).map_values(|p: (int, GCmd)| p.1);
    let mut x = Fixed::zero();
    let mut y = Fixed::zero();
    let mut k: usize = 0;
    assert(all.take(0) =~= Seq::<GCmd>::empty());
    while k < cmds.len()
        invariant
            k <= cmds.len(),
            all == view_code_cmds(cmds@).map_values(|p: (int, GCmd)| p.1),
            all.len() == cmds.len(),
            (x@, y@) == replay_point(all.take(k as int)),
        decreases cmds.len() - k,
    {
        match cmds[k].1 {
            CommentlessGCodeExpr::Home => {
                x = Fixed::zero();
                y = Fixed::zero();
            },
            CommentlessGCodeExpr::Move { x: nx, y: ny } => {
                x = nx;
                y = ny;
            },
            CommentlessGCodeExpr::LinMove { x: nx, y: ny } => {
                x = nx;
                y = ny;
            },
            CommentlessGCodeExpr::Arc { clkw, x: nx, y: ny, i, j } => {
                x = nx;
                y = ny;
            },
            CommentlessGCodeExpr::Pen(_) => {},
        }
        proof {
            assert(all.take(k + 1).drop_last() =~= all.take(k as int));
            assert(all.take(k + 1).last() == all[k as int]);
        }
        k = k + 1;
    }
    proof {
        assert(all.take(cmds.len() as int) =~= all);
    }
    (x, y)
}

} // verus!

