//! The mathematical model of incremental line rasterization: the exact
//! sequence of coordinates a line visits, stepping one unit at a time along
//! the axis with the larger delta and accumulating error on the minor axis.

use vstd::prelude::*;

verus! {

/// One rasterization step from state (major, minor, error): the major
/// coordinate always advances one unit; the minor coordinate advances when the
/// accumulated error exceeds half the major delta.
pub open spec fn bres_step(p: (int, int, int), smaj: int, smin: int, dmaj: int, dmin: int) -> (
    int,
    int,
    int,
) {
    let e = p.2 + dmin;
    if 2 * e > dmaj {
        (p.0 + smaj, p.1 + smin, e - dmaj)
    } else {
        (p.0 + smaj, p.1, e)
    }
}

/// The (major, minor, error) state after `i` steps from (maj, min, 0).
pub open spec fn bres_state(
    maj: int,
    min_: int,
    smaj: int,
    smin: int,
    dmaj: int,
    dmin: int,
    i: nat,
) -> (int, int, int)
    decreases i,
{
    if i == 0 {
        (maj, min_, 0)
    } else {
        bres_step(bres_state(maj, min_, smaj, smin, dmaj, dmin, (i - 1) as nat), smaj, smin, dmaj, dmin)
    }
}

/// The `dmaj + 1` (major, minor) coordinates visited, start and end included.
pub open spec fn bres_points(
    maj: int,
    min_: int,
    smaj: int,
    smin: int,
    dmaj: int,
    dmin: int,
) -> Seq<(int, int)> {
    Seq::new((dmaj + 1) as nat, |i: int| {
        let s = bres_state(maj, min_, smaj, smin, dmaj, dmin, i as nat);
        (s.0, s.1)
    })
}

/// The absolute value of a delta.
pub open spec fn abs(a: int) -> int {
    if a >= 0 { a } else { -a }
}

/// The unit step that moves `from` toward `to`.
pub open spec fn sign_toward(from: int, to: int) -> int {
    if to >= from { 1 } else { -1 }
}

/// The exact sequence of (x, y) coordinates visited by the line from
/// (x1, y1) to (x2, y2). When the x delta dominates, the line steps along x;
/// otherwise it steps along y and the visited pairs are swapped back.
pub open spec fn line_points(x1: int, y1: int, x2: int, y2: int) -> Seq<(int, int)> {
    let dx = abs(x2 - x1);
    let dy = abs(y2 - y1);
    let sx = sign_toward(x1, x2);
    let sy = sign_toward(y1, y2);
    if dx >= dy {
        bres_points(x1, y1, sx, sy, dx, dy)
    } else {
        bres_points(y1, x1, sy, sx, dy, dx).map_values(|p: (int, int)| (p.1, p.0))
    }
}

/// The invariant that ties the error accumulator to the minor-axis progress:
/// after `i` steps the major coordinate has advanced `i` units, the minor
/// advance `a` and error `e` satisfy `a * dmaj + e == i * dmin`, the error
/// stays within half the major delta on either side, and the minor advance
/// never exceeds the minor delta.
pub(crate) proof fn lemma_bres_state_invariant(
    maj: int,
    min_: int,
    smaj: int,
    smin: int,
    dmaj: int,
    dmin: int,
    i: nat,
)
    requires
        0 <= dmin <= dmaj,
        1 <= dmaj,
        smin == 1 || smin == -1,
        i <= dmaj,
    ensures
        ({
            let s = bres_state(maj, min_, smaj, smin, dmaj, dmin, i);
            &&& s.0 == maj + i * smaj
            &&& (s.1 - min_) * smin * dmaj + s.2 == i * dmin
            &&& -dmaj < 2 * s.2 <= dmaj
            &&& 0 <= (s.1 - min_) * smin <= dmin
        }),
{
    lemma_bres_state_invariant_core(maj, min_, smaj, smin, dmaj, dmin, i);
    let s = bres_state(maj, min_, smaj, smin, dmaj, dmin, i);
    let a = (s.1 - min_) * smin;
    assert(a <= dmin) by (nonlinear_arith)
        requires
            a * dmaj + s.2 == i * dmin,
            i <= dmaj,
            -dmaj < 2 * s.2,
            dmaj >= 1,
            dmin >= 0,
            a >= 0,
    ;
}

proof fn lemma_bres_state_invariant_core(
    maj: int,
    min_: int,
    smaj: int,
    smin: int,
    dmaj: int,
    dmin: int,
    i: nat,
)
    requires
        0 <= dmin <= dmaj,
        1 <= dmaj,
        smin == 1 || smin == -1,
        i <= dmaj,
    ensures
        ({
            let s = bres_state(maj, min_, smaj, smin, dmaj, dmin, i);
            &&& s.0 == maj + i * smaj
            &&& (s.1 - min_) * smin * dmaj + s.2 == i * dmin
            &&& -dmaj < 2 * s.2 <= dmaj
            &&& (s.1 - min_) * smin >= 0
        }),
    decreases i,
{
    if i == 0 {
    } else {
        let j = (i - 1) as nat;
        lemma_bres_state_invariant_core(maj, min_, smaj, smin, dmaj, dmin, j);
        let s = bres_state(maj, min_, smaj, smin, dmaj, dmin, j);
        let a = (s.1 - min_) * smin;
        let t = bres_state(maj, min_, smaj, smin, dmaj, dmin, i);
        let e = s.2 + dmin;
        assert(t == bres_step(s, smaj, smin, dmaj, dmin));
        if 2 * e > dmaj {
            assert(t.1 == s.1 + smin);
            assert((t.1 - min_) * smin == a + 1) by (nonlinear_arith)
                requires
                    t.1 == s.1 + smin,
                    a == (s.1 - min_) * smin,
                    smin == 1 || smin == -1,
            ;
            assert((a + 1) * dmaj == a * dmaj + dmaj) by (nonlinear_arith);
            assert(s.0 + smaj == maj + j * smaj + smaj == maj + i * smaj) by (nonlinear_arith)
                requires
                    s.0 == maj + j * smaj,
                    i == j + 1,
            ;
            assert(i * dmin == j * dmin + dmin) by (nonlinear_arith)
                requires
                    i == j + 1,
            ;
        } else {
            assert((t.1 - min_) * smin == a);
            assert(s.0 + smaj == maj + i * smaj) by (nonlinear_arith)
                requires
                    s.0 == maj + j * smaj,
                    i == j + 1,
            ;
            assert(i * dmin == j * dmin + dmin) by (nonlinear_arith)
                requires
                    i == j + 1,
            ;
        }
    }
}

/// Law: a line visits both of its endpoints — they are the first and last
/// visited coordinates.
pub proof fn lemma_line_endpoints(x1: int, y1: int, x2: int, y2: int)
    ensures
        line_points(x1, y1, x2, y2).len() >= 1,
        line_points(x1, y1, x2, y2).first() == (x1, y1),
        line_points(x1, y1, x2, y2).last() == (x2, y2),
        line_points(x1, y1, x2, y2).contains((x1, y1)),
        line_points(x1, y1, x2, y2).contains((x2, y2)),
{
    let dx = abs(x2 - x1);
    let dy = abs(y2 - y1);
    let sx = sign_toward(x1, x2);
    let sy = sign_toward(y1, y2);
    let pts = line_points(x1, y1, x2, y2);
    if dx >= dy {
        if dx == 0 {
            assert(x2 == x1 && y2 == y1);
            assert(pts.len() == 1);
            assert(pts[0] == (x1, y1));
        } else {
            lemma_bres_state_invariant(x1, y1, sx, sy, dx, dy, dx as nat);
            let s = bres_state(x1, y1, sx, sy, dx, dy, dx as nat);
            lemma_final_state(x1, y1, sx, sy, dx, dy, s, x2, y2);
            assert(pts[dx] == (x2, y2));
            assert(pts[0] == (x1, y1));
        }
    } else {
        let raw = bres_points(y1, x1, sy, sx, dy, dx);
        if dy == 0 {
        } else {
            lemma_bres_state_invariant(y1, x1, sy, sx, dy, dx, dy as nat);
            let s = bres_state(y1, x1, sy, sx, dy, dx, dy as nat);
            lemma_final_state(y1, x1, sy, sx, dy, dx, s, y2, x2);
            assert(raw[dy] == (y2, x2));
            assert(raw[0] == (y1, x1));
            assert(pts[dy] == (x2, y2));
            assert(pts[0] == (x1, y1));
        }
    }
    assert(pts.contains(pts.first())) by {
        assert(pts[0] == pts.first());
    }
    assert(pts.contains(pts.last())) by {
        assert(pts[pts.len() - 1] == pts.last());
    }
}

/// From the error invariant at the last step, the final state sits exactly on
/// the far endpoint.
proof fn lemma_final_state(
    maj: int,
    min_: int,
    smaj: int,
    smin: int,
    dmaj: int,
    dmin: int,
    s: (int, int, int),
    majend: int,
    minend: int,
)
    requires
        1 <= dmaj,
        0 <= dmin <= dmaj,
        smaj == 1 || smaj == -1,
        smin == 1 || smin == -1,
        dmaj == abs(majend - maj),
        smaj == sign_toward(maj, majend),
        dmin == abs(minend - min_),
        smin == sign_toward(min_, minend),
        s.0 == maj + dmaj * smaj,
        (s.1 - min_) * smin * dmaj + s.2 == dmaj * dmin,
        -dmaj < 2 * s.2 <= dmaj,
        (s.1 - min_) * smin >= 0,
    ensures
        s.0 == majend,
        s.1 == minend,
{
    let a = (s.1 - min_) * smin;
    assert(s.0 == majend) by (nonlinear_arith)
        requires
            s.0 == maj + dmaj * smaj,
            dmaj == abs(majend - maj),
            smaj == sign_toward(maj, majend),
    ;
    assert(s.2 == (dmin - a) * dmaj) by (nonlinear_arith)
        requires
            a * dmaj + s.2 == dmaj * dmin,
    ;
    if a != dmin {
        assert(abs(s.2) >= dmaj) by (nonlinear_arith)
            requires
                s.2 == (dmin - a) * dmaj,
                a != dmin,
                dmaj >= 1,
        ;
        assert(false);
    }
    assert(a == dmin);
    assert(s.1 == min_ + dmin * smin) by (nonlinear_arith)
        requires
            (s.1 - min_) * smin == dmin,
            smin == 1 || smin == -1,
    ;
    assert(s.1 == minend) by (nonlinear_arith)
        requires
            s.1 == min_ + dmin * smin,
            dmin == abs(minend - min_),
            smin == sign_toward(min_, minend),
    ;
}

/// When the minor delta is zero the error never grows, so the minor coordinate
/// never steps: the visited states run straight along the major axis.
proof fn lemma_bres_state_flat(maj: int, min_: int, smaj: int, smin: int, dmaj: int, i: nat)
    requires
        0 <= dmaj,
    ensures
        bres_state(maj, min_, smaj, smin, dmaj, 0, i) == (maj + i * smaj, min_, 0int),
    decreases i,
{
    if i == 0 {
        assert(0 * smaj == 0) by (nonlinear_arith);
    } else {
        let j = (i - 1) as nat;
        lemma_bres_state_flat(maj, min_, smaj, smin, dmaj, j);
        assert(maj + j * smaj + smaj == maj + i * smaj) by (nonlinear_arith)
            requires
                i == j + 1,
        ;
    }
}

/// Law: a horizontal line visits exactly the pixels of its segment — the
/// `j`-th visited coordinate is `(x1 + j * sx, y)`, there are `|x2 - x1| + 1`
/// of them, and the visited set is exactly the span between the endpoints.
pub proof fn lemma_horizontal_line(x1: int, y: int, x2: int)
    ensures
        line_points(x1, y, x2, y).len() == abs(x2 - x1) + 1,
        forall|j: int| 0 <= j <= abs(x2 - x1) ==> #[trigger] line_points(x1, y, x2, y)[j] == (
            x1 + j * sign_toward(x1, x2),
            y,
        ),
        forall|a: int, b: int|
            line_points(x1, y, x2, y).contains((a, b)) <==> (b == y && (if x1 <= x2 {
                x1 <= a <= x2
            } else {
                x2 <= a <= x1
            })),
{
    let dx = abs(x2 - x1);
    let sx = sign_toward(x1, x2);
    let pts = line_points(x1, y, x2, y);
    assert forall|j: int| 0 <= j <= dx implies #[trigger] pts[j] == (x1 + j * sx, y) by {
        lemma_bres_state_flat(x1, y, sx, 1, dx, j as nat);
    }
    assert forall|a: int, b: int|
        pts.contains((a, b)) <==> (b == y && (if x1 <= x2 {
            x1 <= a <= x2
        } else {
            x2 <= a <= x1
        })) by {
        if pts.contains((a, b)) {
            let j = choose|j: int| 0 <= j < pts.len() && pts[j] == (a, b);
            assert(pts[j] == (x1 + j * sx, y));
            assert(b == y);
            if x1 <= x2 {
                assert(x1 <= a <= x2) by (nonlinear_arith)
                    requires
                        a == x1 + j * sx,
                        sx == 1,
                        0 <= j <= x2 - x1,
                ;
            } else {
                assert(x2 <= a <= x1) by (nonlinear_arith)
                    requires
                        a == x1 + j * sx,
                        sx == -1,
                        0 <= j <= x1 - x2,
                ;
            }
        }
        if b == y && (if x1 <= x2 {
            x1 <= a <= x2
        } else {
            x2 <= a <= x1
        }) {
            let j = if sx == 1 {
                a - x1
            } else {
                x1 - a
            };
            assert(0 <= j <= dx);
            assert(x1 + j * sx == a) by (nonlinear_arith)
                requires
                    (sx == 1 && j == a - x1) || (sx == -1 && j == x1 - a),
            ;
            assert(pts[j] == (a, b));
            assert(pts.contains((a, b)));
        }
    }
}

/// Law: a vertical line visits exactly the pixels of its segment.
pub proof fn lemma_vertical_line(x: int, y1: int, y2: int)
    ensures
        line_points(x, y1, x, y2).len() == abs(y2 - y1) + 1,
        forall|a: int, b: int|
            line_points(x, y1, x, y2).contains((a, b)) <==> (a == x && (if y1 <= y2 {
                y1 <= b <= y2
            } else {
                y2 <= b <= y1
            })),
{
    let dy = abs(y2 - y1);
    let sy = sign_toward(y1, y2);
    let pts = line_points(x, y1, x, y2);
    if dy == 0 {
        assert(pts.len() == 1);
        assert(pts[0] == (x, y1));
        assert forall|a: int, b: int|
            pts.contains((a, b)) <==> (a == x && (if y1 <= y2 {
                y1 <= b <= y2
            } else {
                y2 <= b <= y1
            })) by {
            if pts.contains((a, b)) {
                let j = choose|j: int| 0 <= j < pts.len() && pts[j] == (a, b);
                assert(j == 0);
            }
            if a == x && b == y1 {
                assert(pts[0] == (a, b));
                assert(pts.contains((a, b)));
            }
        }
    } else {
        let raw = bres_points(y1, x, sy, 1, dy, 0);
        assert forall|j: int| 0 <= j <= dy implies #[trigger] raw[j] == (y1 + j * sy, x) by {
            lemma_bres_state_flat(y1, x, sy, 1, dy, j as nat);
        }
        assert(pts.len() == dy + 1);
        assert forall|j: int| 0 <= j <= dy implies #[trigger] pts[j] == (x, y1 + j * sy) by {
            assert(raw[j] == (y1 + j * sy, x));
        }
        assert forall|a: int, b: int|
            pts.contains((a, b)) <==> (a == x && (if y1 <= y2 {
                y1 <= b <= y2
            } else {
                y2 <= b <= y1
            })) by {
            if pts.contains((a, b)) {
                let j = choose|j: int| 0 <= j < pts.len() && pts[j] == (a, b);
                assert(pts[j] == (x, y1 + j * sy));
                assert(a == x);
                if y1 <= y2 {
                    assert(y1 <= b <= y2) by (nonlinear_arith)
                        requires
                            b == y1 + j * sy,
                            sy == 1,
                            0 <= j <= y2 - y1,
                    ;
                } else {
                    assert(y2 <= b <= y1) by (nonlinear_arith)
                        requires
                            b == y1 + j * sy,
                            sy == -1,
                            0 <= j <= y1 - y2,
                    ;
                }
            }
            if a == x && (if y1 <= y2 {
                y1 <= b <= y2
            } else {
                y2 <= b <= y1
            }) {
                let j = if sy == 1 {
                    b - y1
                } else {
                    y1 - b
                };
                assert(0 <= j <= dy);
                assert(y1 + j * sy == b) by (nonlinear_arith)
                    requires
                        (sy == 1 && j == b - y1) || (sy == -1 && j == y1 - b),
                ;
                assert(pts[j] == (a, b));
                assert(pts.contains((a, b)));
            }
        }
    }
}

} // verus!
