//! Affine coordinate transform over command lists.
//!
//! `transform` scales every positional field and then translates it; the
//! scale-then-translate order is part of the contract.  An arc's center
//! offset `(i, j)` is relative to the arc's start, so it scales but is never
//! translated.  `Home`, pen commands and comments pass through unchanged;
//! the list's order, length and line tags are kept.

use vstd::prelude::*;

use crate::fixed::{Fixed, fits_raw, fmul};
use crate::gcode::{GCmd, GCodeExpr, view_cmds};

verus! {

/// A positional field after the transform: scaled, then translated.
pub open spec fn tf(v: int, s: int, t: int) -> int {
    fmul(v, s) + t
}

/// One command after the transform.
pub open spec fn transform_cmd(g: GCmd, tx: int, ty: int, s: int) -> GCmd {
    match g {
        GCmd::Home => GCmd::Home,
        GCmd::Move { x, y } => GCmd::Move { x: tf(x, s, tx), y: tf(y, s, ty) },
        GCmd::LinMove { x, y } => GCmd::LinMove { x: tf(x, s, tx), y: tf(y, s, ty) },
        GCmd::Arc { clkw, x, y, i, j } => GCmd::Arc {
            clkw,
            x: tf(x, s, tx),
            y: tf(y, s, ty),
            i: fmul(i, s),
            j: fmul(j, s),
        },
        GCmd::Pen { down } => GCmd::Pen { down },
        GCmd::Comment { text } => GCmd::Comment { text },
    }
}

/// Whether every transformed field of `g` fits the raw representation.
pub open spec fn transform_cmd_fits(g: GCmd, tx: int, ty: int, s: int) -> bool {
    match g {
        GCmd::Move { x, y } => fits_raw(fmul(x, s)) && fits_raw(tf(x, s, tx)) && fits_raw(
            fmul(y, s),
        ) && fits_raw(tf(y, s, ty)),
        GCmd::LinMove { x, y } => fits_raw(fmul(x, s)) && fits_raw(tf(x, s, tx)) && fits_raw(
            fmul(y, s),
        ) && fits_raw(tf(y, s, ty)),
        GCmd::Arc { clkw, x, y, i, j } => fits_raw(fmul(x, s)) && fits_raw(tf(x, s, tx))
            && fits_raw(fmul(y, s)) && fits_raw(tf(y, s, ty)) && fits_raw(fmul(i, s)) && fits_raw(
            fmul(j, s),
        ),
        _ => true,
    }
}

/// A whole line-tagged list after the transform.
pub open spec fn transform_cmds(m: Seq<(int, GCmd)>, tx: int, ty: int, s: int) -> Seq<
    (int, GCmd),
> {
    m.map_values(|p: (int, GCmd)| (p.0, transform_cmd(p.1, tx, ty, s)))
}

/// Applies the transform to every command of a parsed file: each positional
/// field becomes `field * scale + translate`, an arc's center offset only
/// scales, everything else passes through; order, length and line tags are
/// kept.
#[verifier::loop_isolation(false)]
pub fn transform(
    cmds: &Vec<(usize, GCodeExpr)>,
    translate: (Fixed, Fixed),
    scale: Fixed,
) -> (r: Vec<(usize, GCodeExpr)>)
    requires
        forall|k: int|
            0 <= k < cmds@.len() ==> transform_cmd_fits(
                #[trigger] cmds@[k].1@,
                translate.0@,
                translate.1@,
                scale@,
            ),
    ensures
        view_cmds(r@) == transform_cmds(view_cmds(cmds@), translate.0@, translate.1@, scale@),
{
    let ghost cv = view_cmds(cmds@);
    let ghost goal = transform_cmds(cv, translate.0@, translate.1@, scale@);
    let (dx, dy) = translate;
    let mut out: Vec<(usize, GCodeExpr)> = Vec::new();
    let mut m: usize = 0;
    proof {
        assert(view_cmds(out@) =~= goal.take(0));
    }
    while m < cmds.len()
        invariant
            0 <= m <= cmds.len(),
            view_cmds(out@) == goal.take(m as int),
            out@.len() == m,
        decreases cmds.len() - m,
    {
        let l = cmds[m].0;
        proof {
            assert(cv[m as int] == (cmds@[m as int].0 as int, cmds@[m as int].1@));
            assert(transform_cmd_fits(cmds@[m as int].1@, dx@, dy@, scale@));
        }
        let ne: GCodeExpr = match &cmds[m].1 {
            GCodeExpr::Code(c) => GCodeExpr::Code(
                match *c {
                    crate::gcode::CommentlessGCodeExpr::Home => crate::gcode::CommentlessGCodeExpr::Home,
                    crate::gcode::CommentlessGCodeExpr::Move { x, y } => crate::gcode::CommentlessGCodeExpr::Move {
                        x: x.scale_by(scale).add(dx),
                        y: y.scale_by(scale).add(dy),
                    },
                    crate::gcode::CommentlessGCodeExpr::LinMove { x, y } => crate::gcode::CommentlessGCodeExpr::LinMove {
                        x: x.scale_by(scale).add(dx),
                        y: y.scale_by(scale).add(dy),
                    },
                    crate::gcode::CommentlessGCodeExpr::Arc { clkw, x, y, i, j } => crate::gcode::CommentlessGCodeExpr::Arc {
                        clkw,
                        x: x.scale_by(scale).add(dx),
                        y: y.scale_by(scale).add(dy),
                        i: i.scale_by(scale),
                        j: j.scale_by(scale),
                    },
                    crate::gcode::CommentlessGCodeExpr::Pen(down) => crate::gcode::CommentlessGCodeExpr::Pen(
                        down,
                    ),
                },
            ),
            GCodeExpr::Comment(text) => GCodeExpr::Comment(text.clone()),
        };
        out.push((l, ne));
        proof {
            assert(ne@ == transform_cmd(cv[m as int].1, dx@, dy@, scale@));
            assert(view_cmds(out@) =~= goal.take(m + 1));
        }
        m = m + 1;
    }
    proof {
        assert(goal.take(cmds@.len() as int) =~= goal);
    }
    out
}

/// Scaling by a whole number of units is exact.
proof fn lemma_fmul_exact(v: int, n: int)
    ensures
        fmul(v, 1000 * n) == v * n,
{
    assert(v * (1000 * n) == (v * n) * 1000) by (nonlinear_arith);
    if v * n >= 0 {
        assert(v * (1000 * n) >= 0) by (nonlinear_arith)
            requires
                v * n >= 0,
                v * (1000 * n) == (v * n) * 1000,
        ;
        assert(((v * n) * 1000) / 1000 == v * n) by (nonlinear_arith);
    } else {
        assert(v * (1000 * n) < 0) by (nonlinear_arith)
            requires
                v * n < 0,
                v * (1000 * n) == (v * n) * 1000,
        ;
        assert((-((v * n) * 1000)) == (-(v * n)) * 1000) by (nonlinear_arith);
        assert(((-(v * n)) * 1000) / 1000 == -(v * n)) by (nonlinear_arith);
    }
}

/// Composition of two transforms with whole-unit scale factors: applying
/// `(t1, s1)` and then `(t2, s2)` equals the single combined transform with
/// `scale = s1 * s2` and `translate = t1 * s2 + t2` — scale before
/// translation, exactly in this order.
pub proof fn lemma_transform_compose(
    m: Seq<(int, GCmd)>,
    tx1: int,
    ty1: int,
    s1: int,
    tx2: int,
    ty2: int,
    s2: int,
)
    requires
        s1 % 1000 == 0,
        s2 % 1000 == 0,
    ensures
        transform_cmds(transform_cmds(m, tx1, ty1, s1), tx2, ty2, s2) == transform_cmds(
            m,
            fmul(tx1, s2) + tx2,
            fmul(ty1, s2) + ty2,
            fmul(s1, s2),
        ),
{
    let n1 = s1 / 1000;
    let n2 = s2 / 1000;
    assert(s1 == 1000 * n1);
    assert(s2 == 1000 * n2);
    lemma_fmul_exact(s1, n2);
    assert(fmul(s1, s2) == s1 * n2);
    assert(s1 * n2 == 1000 * (n1 * n2)) by (nonlinear_arith)
        requires
            s1 == 1000 * n1,
    ;
    assert forall|g: GCmd|
        #[trigger] transform_cmd(transform_cmd(g, tx1, ty1, s1), tx2, ty2, s2) == transform_cmd(
            g,
            fmul(tx1, s2) + tx2,
            fmul(ty1, s2) + ty2,
            fmul(s1, s2),
        ) by {
        lemma_field_compose(tx1, s1, tx2, s2);
        lemma_field_compose(ty1, s1, ty2, s2);
        match g {
            GCmd::Move { x, y } => {
                lemma_field_at(x, tx1, s1, tx2, s2);
                lemma_field_at(y, ty1, s1, ty2, s2);
            },
            GCmd::LinMove { x, y } => {
                lemma_field_at(x, tx1, s1, tx2, s2);
                lemma_field_at(y, ty1, s1, ty2, s2);
            },
            GCmd::Arc { clkw, x, y, i, j } => {
                lemma_field_at(x, tx1, s1, tx2, s2);
                lemma_field_at(y, ty1, s1, ty2, s2);
                lemma_field_at(i, 0, s1, 0, s2);
                lemma_field_at(j, 0, s1, 0, s2);
            },
            _ => {},
        }
    }
    assert(transform_cmds(transform_cmds(m, tx1, ty1, s1), tx2, ty2, s2) =~= transform_cmds(
        m,
        fmul(tx1, s2) + tx2,
        fmul(ty1, s2) + ty2,
        fmul(s1, s2),
    ));
}

/// The combined translate of one axis is exact.
proof fn lemma_field_compose(t1: int, s1: int, t2: int, s2: int)
    requires
        s1 % 1000 == 0,
        s2 % 1000 == 0,
    ensures
        fmul(t1, s2) + t2 == t1 * (s2 / 1000) + t2,
{
    lemma_fmul_exact(t1, s2 / 1000);
    assert(s2 == 1000 * (s2 / 1000));
}

/// One positional field, scaled twice and translated, equals the field under
/// the combined transform.
proof fn lemma_field_at(v: int, t1: int, s1: int, t2: int, s2: int)
    requires
        s1 % 1000 == 0,
        s2 % 1000 == 0,
    ensures
        tf(tf(v, s1, t1), s2, t2) == tf(v, fmul(s1, s2), fmul(t1, s2) + t2),
        fmul(fmul(v, s1), s2) == fmul(v, fmul(s1, s2)),
{
    let n1 = s1 / 1000;
    let n2 = s2 / 1000;
    assert(s1 == 1000 * n1);
    assert(s2 == 1000 * n2);
    lemma_fmul_exact(v, n1);
    lemma_fmul_exact(v * n1, n2);
    lemma_fmul_exact(v * n1 + t1, n2);
    lemma_fmul_exact(t1, n2);
    lemma_fmul_exact(s1, n2);
    assert(s1 * n2 == 1000 * (n1 * n2)) by (nonlinear_arith)
        requires
            s1 == 1000 * n1,
    ;
    lemma_fmul_exact(v, n1 * n2);
    assert(fmul(v, s1) == v * n1);
    assert(fmul(fmul(v, s1), s2) == (v * n1) * n2);
    assert((v * n1) * n2 == v * (n1 * n2)) by (nonlinear_arith);
    assert(tf(tf(v, s1, t1), s2, t2) == (v * n1 + t1) * n2 + t2);
    assert((v * n1 + t1) * n2 == (v * n1) * n2 + t1 * n2) by (nonlinear_arith);
}

} // verus!

verus! {

/// The exact scale product, in a wide intermediate.
fn fmul_wide(a: i64, b: i64) -> (r: i128)
    ensures
        r as int == fmul(a as int, b as int),
{
    let wa: i128 = a as i128;
    let wb: i128 = b as i128;
    let neg: bool = (a < 0) != (b < 0);
    let ma: u128 = if a < 0 {
        (-wa) as u128
    } else {
        wa as u128
    };
    let mb: u128 = if b < 0 {
        (-wb) as u128
    } else {
        wb as u128
    };
    proof {
        assert(ma as int * mb as int <= 0x8000_0000_0000_0000 * 0x8000_0000_0000_0000)
            by (nonlinear_arith)
            requires
                ma as int <= 0x8000_0000_0000_0000,
                mb as int <= 0x8000_0000_0000_0000,
        ;
        crate::fixed::lemma_magnitude_product(a as int, b as int, ma as int, mb as int);
    }
    let mp: u128 = ma * mb;
    let q: u128 = mp / 1000;
    proof {
        crate::fixed::lemma_fmul_cases(a as int, b as int, mp as int, q as int);
    }
    if neg && q > 0 {
        -(q as i128)
    } else {
        q as i128
    }
}

/// Whether one field transform stays within the raw range.
fn field_fits(v: Fixed, s: Fixed, t: i64, translated: bool) -> (r: bool)
    ensures
        r == if translated {
            fits_raw(fmul(v@, s@)) && fits_raw(fmul(v@, s@) + t as int)
        } else {
            fits_raw(fmul(v@, s@))
        },
{
    let f = fmul_wide(v.raw, s.raw);
    if f < i64::MIN as i128 || f > i64::MAX as i128 {
        return false;
    }
    if !translated {
        return true;
    }
    let g = f + t as i128;
    i64::MIN as i128 <= g && g <= i64::MAX as i128
}

/// Applies the transform after checking that every transformed field fits
/// the raw representation; `None` when one does not, with the input left
/// unused.
#[verifier::loop_isolation(false)]
pub fn transform_checked(
    cmds: &Vec<(usize, GCodeExpr)>,
    translate: (Fixed, Fixed),
    scale: Fixed,
) -> (r: Option<Vec<(usize, GCodeExpr)>>)
    ensures
        match r {
            Some(v) => view_cmds(v@) == transform_cmds(
                view_cmds(cmds@),
                translate.0@,
                translate.1@,
                scale@,
            ),
            None => exists|k: int|
                0 <= k < cmds@.len() && !transform_cmd_fits(
                    #[trigger] cmds@[k].1@,
                    translate.0@,
                    translate.1@,
                    scale@,
                ),
        },
{
    let dx = translate.0;
    let dy = translate.1;
    let mut k: usize = 0;
    while k < cmds.len()
        invariant
            k <= cmds.len(),
            forall|m: int|
                0 <= m < k ==> transform_cmd_fits(
                    #[trigger] cmds@[m].1@,
                    dx@,
                    dy@,
                    scale@,
                ),
        decreases cmds.len() - k,
    {
        let ok = match &cmds[k].1 {
            GCodeExpr::Code(c) => match *c {
                crate::gcode::CommentlessGCodeExpr::Move { x, y } => field_fits(
                    x,
                    scale,
                    dx.raw,
                    true,
                ) && field_fits(y, scale, dy.raw, true),
                crate::gcode::CommentlessGCodeExpr::LinMove { x, y } => field_fits(
                    x,
                    scale,
                    dx.raw,
                    true,
                ) && field_fits(y, scale, dy.raw, true),
                crate::gcode::CommentlessGCodeExpr::Arc { clkw, x, y, i, j } => field_fits(
                    x,
                    scale,
                    dx.raw,
                    true,
                ) && field_fits(y, scale, dy.raw, true) && field_fits(i, scale, 0, false)
                    && field_fits(j, scale, 0, false),
                _ => true,
            },
            GCodeExpr::Comment(_) => true,
        };
        if !ok {
            proof {
                assert(dx == translate.0 && dy == translate.1);
                assert(!transform_cmd_fits(
                    cmds@[k as int].1@,
                    translate.0@,
                    translate.1@,
                    scale@,
                ));
            }
            return None;
        }
        k = k + 1;
    }
    Some(transform(cmds, translate, scale))
}

} // verus!
