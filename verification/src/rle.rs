//! Run-length encoding of a row of pixels: the mathematical model of the
//! compression pass, together with the laws that make it the decomposition of
//! a row into its maximal equal-color runs.

use vstd::prelude::*;
use crate::graphics::Color;
use crate::graphics::OutputOp;

verus! {

/// Run-length encoding of a row, built pixel by pixel from the left: each
/// element is one run, as (length, color). A pixel equal in color to the run
/// before it extends that run; any other pixel opens a new run.
pub open spec fn rle(s: Seq<Color>) -> Seq<(nat, Color)>
    decreases s.len(),
{
    if s.len() == 0 {
        Seq::empty()
    } else {
        let prev = rle(s.drop_last());
        let c = s.last();
        if prev.len() > 0 && prev.last().1 == c {
            prev.update(prev.len() - 1, ((prev.last().0 + 1) as nat, c))
        } else {
            prev.push((1nat, c))
        }
    }
}

/// `n` copies of the color `c`.
pub open spec fn repeat_color(c: Color, n: nat) -> Seq<Color> {
    Seq::new(n, |i: int| c)
}

/// Expansion of a run sequence back into a row of pixels.
pub open spec fn expand(runs: Seq<(nat, Color)>) -> Seq<Color>
    decreases runs.len(),
{
    if runs.len() == 0 {
        Seq::empty()
    } else {
        expand(runs.drop_last()) + repeat_color(runs.last().1, runs.last().0)
    }
}

/// The runs of a row are well formed: every run is nonempty and adjacent runs
/// have different colors, so no run could be merged into its neighbor — each
/// run is maximal.
pub open spec fn runs_wf(runs: Seq<(nat, Color)>) -> bool {
    &&& forall|i: int| 0 <= i < runs.len() ==> (#[trigger] runs[i]).0 >= 1
    &&& forall|i: int| 0 < i < runs.len() ==> (#[trigger] runs[i]).1 != runs[i - 1].1
}

proof fn lemma_repeat_color_push(c: Color, n: nat)
    ensures
        repeat_color(c, n + 1) == repeat_color(c, n).push(c),
{
    assert(repeat_color(c, n + 1) =~= repeat_color(c, n).push(c));
}

/// How the encoding grows when one pixel is appended to a row.
pub proof fn lemma_rle_push(s: Seq<Color>, c: Color)
    ensures
        rle(s.push(c)) == if rle(s).len() > 0 && rle(s).last().1 == c {
            rle(s).update(rle(s).len() - 1, ((rle(s).last().0 + 1) as nat, c))
        } else {
            rle(s).push((1nat, c))
        },
{
    assert(s.push(c).drop_last() =~= s);
    assert(s.push(c).last() == c);
}

/// Law: the runs of a row expand back to exactly that row, and they are
/// maximal — every run is nonempty and adjacent runs differ in color. Together
/// these say that `rle` is the decomposition of the row into its maximal
/// equal-color runs, so `rle(s).len()` is the number of such runs, and the
/// total length of the runs is the width of the row.
pub proof fn lemma_rle_correct(s: Seq<Color>)
    ensures
        expand(rle(s)) == s,
        runs_wf(rle(s)),
    decreases s.len(),
{
    if s.len() == 0 {
        assert(expand(rle(s)) =~= s);
    } else {
        let t = s.drop_last();
        let c = s.last();
        lemma_rle_correct(t);
        let prev = rle(t);
        if prev.len() > 0 && prev.last().1 == c {
            let k = prev.len() - 1;
            let q = prev.update(k, ((prev.last().0 + 1) as nat, c));
            assert(rle(s) == q);
            assert(q.drop_last() =~= prev.drop_last());
            lemma_repeat_color_push(c, prev.last().0);
            assert(expand(q) == expand(prev.drop_last()) + repeat_color(c, (prev.last().0 + 1) as nat));
            assert(expand(prev) == expand(prev.drop_last()) + repeat_color(c, prev.last().0));
            assert(expand(q) =~= expand(prev).push(c));
            assert(expand(q) =~= s);
            assert(runs_wf(q));
        } else {
            let q = prev.push((1nat, c));
            assert(rle(s) == q);
            assert(q.drop_last() =~= prev);
            assert(repeat_color(c, 1nat) =~= seq![c]);
            assert(expand(q) =~= expand(prev).push(c));
            assert(expand(q) =~= s);
            assert(runs_wf(q));
        }
    }
}

/// The total length of the expansion is the sum of the run lengths; for the
/// runs of a row this total therefore equals the row's width.
pub open spec fn total_run_length(runs: Seq<(nat, Color)>) -> nat
    decreases runs.len(),
{
    if runs.len() == 0 {
        0
    } else {
        total_run_length(runs.drop_last()) + runs.last().0
    }
}

/// Law: the run lengths of a row sum to the row's width.
pub proof fn lemma_rle_total_length(s: Seq<Color>)
    ensures
        total_run_length(rle(s)) == s.len(),
{
    lemma_rle_correct(s);
    lemma_expand_length(rle(s));
}

proof fn lemma_expand_length(runs: Seq<(nat, Color)>)
    ensures
        expand(runs).len() == total_run_length(runs),
    decreases runs.len(),
{
    if runs.len() > 0 {
        lemma_expand_length(runs.drop_last());
    }
}

/// The glyph text that renders a run of `n` pixels: `n` filled blocks.
pub open spec fn glyphs(n: nat) -> Seq<char> {
    Seq::new(n, |i: int| '\u{2588}')
}

/// The row terminator emitted after each compressed row.
pub open spec fn newline_text() -> Seq<char> {
    seq!['\n']
}

/// One run as an emitted (glyph text, color) pair.
pub open spec fn pairize(r: (nat, Color)) -> (Seq<char>, Color) {
    (glyphs(r.0), r.1)
}

/// The pairs emitted for one row: one glyph run per maximal color run, then
/// the row terminator in transparent black.
pub open spec fn row_pairs(row: Seq<Color>) -> Seq<(Seq<char>, Color)> {
    rle(row).map_values(|r: (nat, Color)| pairize(r)).push(
        (newline_text(), Color::transparent_black()),
    )
}

/// The mathematical value of an emitted (glyph text, color) list.
pub open spec fn emitted(pairs: Seq<(String, Color)>) -> Seq<(Seq<char>, Color)> {
    pairs.map_values(|p: (String, Color)| (p.0@, p.1))
}

/// The pairs a whole grid compresses to, rows top to bottom.
pub open spec fn commit_pairs(grid: Seq<Seq<Color>>) -> Seq<(Seq<char>, Color)>
    decreases grid.len(),
{
    if grid.len() == 0 {
        Seq::empty()
    } else {
        commit_pairs(grid.drop_last()) + row_pairs(grid.last())
    }
}

/// The total length of the glyph texts of a sequence of emitted pairs.
pub open spec fn texts_len(pairs: Seq<(Seq<char>, Color)>) -> int
    decreases pairs.len(),
{
    if pairs.len() == 0 {
        0
    } else {
        texts_len(pairs.drop_last()) + pairs.last().0.len()
    }
}

proof fn lemma_texts_len_runs(runs: Seq<(nat, Color)>)
    ensures
        texts_len(runs.map_values(|r: (nat, Color)| pairize(r))) == total_run_length(runs),
    decreases runs.len(),
{
    if runs.len() > 0 {
        lemma_texts_len_runs(runs.drop_last());
        let m = runs.map_values(|r: (nat, Color)| pairize(r));
        assert(m.drop_last() =~= runs.drop_last().map_values(|r: (nat, Color)| pairize(r)));
        assert(m.last() == pairize(runs.last()));
    }
}

/// Law: one row's emission carries exactly one glyph-run pair per maximal
/// equal-color run, plus the terminator; and the glyph texts of those runs,
/// concatenated, are exactly as long as the row is wide.
pub proof fn lemma_row_emission(row: Seq<Color>)
    ensures
        row_pairs(row).len() == rle(row).len() + 1,
        texts_len(row_pairs(row).drop_last()) == row.len(),
{
    lemma_rle_total_length(row);
    lemma_texts_len_runs(rle(row));
    assert(row_pairs(row).drop_last() =~= rle(row).map_values(|r: (nat, Color)| pairize(r)));
}

/// Law: the emission of a whole grid decomposes row by row — extending the
/// grid by one row appends exactly that row's pairs. With `lemma_row_emission`
/// this pins, for every row, the emitted run count and the total glyph length.
pub proof fn lemma_commit_rows(grid: Seq<Seq<Color>>, y: int)
    requires
        0 <= y < grid.len(),
    ensures
        commit_pairs(grid.take(y + 1)) == commit_pairs(grid.take(y)) + row_pairs(grid[y]),
{
    assert(grid.take(y + 1).drop_last() =~= grid.take(y));
    assert(grid.take(y + 1).last() == grid[y]);
}

/// The device commands that stream a sequence of emitted pairs: for each pair
/// one foreground-color selection followed by its text.
pub open spec fn pair_commands(pairs: Seq<(Seq<char>, Color)>) -> Seq<OutputOp>
    decreases pairs.len(),
{
    if pairs.len() == 0 {
        Seq::empty()
    } else {
        pair_commands(pairs.drop_last()) + seq![
            OutputOp::SetForeground { color: pairs.last().1 },
            OutputOp::Emit { text: pairs.last().0 },
        ]
    }
}

/// The full command stream of one commit: a single absolute reposition to the
/// origin, the commands of every compressed pair, and one final flush.
pub open spec fn commit_commands(grid: Seq<Seq<Color>>) -> Seq<OutputOp> {
    seq![OutputOp::Reposition { col: 0u16, row: 0u16 }] + pair_commands(commit_pairs(grid)) + seq![
        OutputOp::Flush,
    ]
}

} // verus!
