use vstd::prelude::*;
use crate::dimensions::{cell_count, lemma_flat_index_2d, Dimensions};
use crate::direction::{direction_of_slot, direction_slot, Direction, ALL_DIRECTIONS, NUM_DIRECTIONS};
use crate::pattern::{
    is_grid, lemma_cell_in_grid, lemma_cell_index, lemma_grid_ext, lemma_index_cell, lemma_mirror_involution,
    lemma_quarter_turns_compose, lemma_rotate_mirrored, mirrored, overlap_agrees,
    rotated, rotation_fits, sample_at, Pattern,
};
use crate::rule_model::{lemma_valid_model, validation_errors, AdjadencyRules, FrequencyHints, RuleModel};
use crate::sampled::Sampled;
use crate::wfc_state::neighbour;
use crate::simple_bit_set::{words_for_bits, SimpleBitSet};

verus! {

/// Why no pattern model can be built.
#[derive(Debug, PartialEq, Eq, Structural)]
pub enum PatternError {
    /// The requested pattern is longer than the input on at least one axis, so the input
    /// contains no window to sample.
    PatternLargerThanInput,
}

/// `a` comes before `b` in lexicographic order, a proper prefix before the longer
/// sequence: the order in which sample vectors, and so patterns of one extent, sort.
pub open spec fn lex_lt(a: Seq<u32>, b: Seq<u32>) -> bool
    decreases a.len(),
{
    if a.len() == 0 {
        b.len() > 0
    } else if b.len() == 0 {
        false
    } else if a[0] < b[0] {
        true
    } else if a[0] > b[0] {
        false
    } else {
        lex_lt(a.drop_first(), b.drop_first())
    }
}

/// Of two different sample sequences of one length, one comes first; and none comes
/// before itself.
pub proof fn lemma_lex_total(a: Seq<u32>, b: Seq<u32>)
    requires
        a.len() == b.len(),
    ensures
        a != b ==> lex_lt(a, b) || lex_lt(b, a),
        !lex_lt(a, a),
        !(lex_lt(a, b) && lex_lt(b, a)),
    decreases a.len(),
{
    if a.len() > 0 {
        lemma_lex_total(a.drop_first(), b.drop_first());
        lemma_lex_total(a.drop_first(), a.drop_first());
        if a != b && a[0] == b[0] {
            assert(a.drop_first() != b.drop_first()) by {
                if a.drop_first() == b.drop_first() {
                    assert forall|i: int| 0 <= i < a.len() implies a[i] == b[i] by {
                        if i > 0 {
                            assert(a[i] == a.drop_first()[i - 1]);
                            assert(b[i] == b.drop_first()[i - 1]);
                        }
                    }
                    assert(a =~= b);
                }
            }
        }
    } else {
        assert(a =~= b);
    }
}

/// The window of the input `indices` (a row-major grid `input_width` wide) whose top
/// left corner is at column `j`, row `i`, as a `pw` by `ph` grid.
pub open spec fn window(indices: Seq<u32>, input_width: int, pw: int, ph: int, j: int, i: int) -> Seq<u32> {
    Seq::new((pw * ph) as nat, |k: int| sample_at(indices, input_width, j + k % pw, i + k / pw))
}

/// Entry `2 t` of the variants of a square window is its rotation by `t` right angles,
/// and entry `2 t + 1` the mirror image of that.
proof fn lemma_variants_entries(s: Seq<u32>, n: int, t: int)
    requires
        is_grid(s, n, n),
        n > 0,
        0 <= t < 4,
    ensures
        variants(s, n, n).len() == 8,
        variants(s, n, n)[2 * t] == rotated(s, n, n, t),
        variants(s, n, n)[2 * t + 1] == mirrored(rotated(s, n, n, t), n, n),
{
    lemma_quarter_turns_compose(s, n, 0, 0);
}

/// A quarter turn and a mirror image of a symmetry image of a square grid are symmetry
/// images of it too.
proof fn lemma_symmetry_images_closed(s: Seq<u32>, n: int, t: int, mirror: bool)
    requires
        is_grid(s, n, n),
        n > 0,
        0 <= t < 4,
    ensures
        ({
            let r = rotated(s, n, n, t);
            let v = if mirror { mirrored(r, n, n) } else { r };
            &&& rotated(v, n, n, 1) == if mirror {
                mirrored(rotated(s, n, n, (t + 3) % 4), n, n)
            } else {
                rotated(s, n, n, (t + 1) % 4)
            }
            &&& mirrored(v, n, n) == if mirror { r } else { mirrored(r, n, n) }
        }),
{
    let r = rotated(s, n, n, t);
    assert(is_grid(r, n, n));
    if mirror {
        lemma_mirror_involution(r, n, n);
        lemma_rotate_mirrored(r, n, 1);
        lemma_quarter_turns_compose(s, n, t, 3);
    } else {
        lemma_quarter_turns_compose(s, n, t, 1);
    }
}

/// Every symmetry image of a square window is among its variants.
proof fn lemma_symmetries_are_variants(s: Seq<u32>, n: int, t: int)
    requires
        is_grid(s, n, n),
        n > 0,
        0 <= t < 4,
    ensures
        variants(s, n, n).contains(rotated(s, n, n, t)),
        variants(s, n, n).contains(mirrored(rotated(s, n, n, t), n, n)),
{
    lemma_variants_entries(s, n, t);
    let vs = variants(s, n, n);
    assert(vs[2 * t] == rotated(s, n, n, t));
    assert(vs[2 * t + 1] == mirrored(rotated(s, n, n, t), n, n));
}

/// Each variant of a square window is the entry `2 t` or `2 t + 1` for some `t`: a
/// rotation or the mirror image of one.
proof fn lemma_variant_is_symmetry(s: Seq<u32>, n: int, v: Seq<u32>) -> (t: int)
    requires
        is_grid(s, n, n),
        n > 0,
        variants(s, n, n).contains(v),
    ensures
        0 <= t < 4,
        v == rotated(s, n, n, t) || v == mirrored(rotated(s, n, n, t), n, n),
{
    lemma_variants_entries(s, n, 0);
    let vs = variants(s, n, n);
    let k = choose|k: int| 0 <= k < vs.len() && vs[k] == v;
    let t = k / 2;
    lemma_variants_entries(s, n, t);
    assert(k == 2 * t || k == 2 * t + 1);
    t
}

/// The variants of a square window are its images under the eight symmetries of the
/// square: every rotation by a whole number of right angles and the mirror image of each
/// are among them, each of them is one of those, and they are closed under a quarter turn
/// and under mirroring.
pub proof fn lemma_variants_are_the_symmetries(s: Seq<u32>, n: int)
    requires
        is_grid(s, n, n),
        n > 0,
    ensures
        forall|t: int|
            0 <= t < 4 ==> variants(s, n, n).contains(#[trigger] rotated(s, n, n, t)) && variants(s, n, n).contains(
                mirrored(rotated(s, n, n, t), n, n),
            ),
        forall|v: Seq<u32>|
            #[trigger] variants(s, n, n).contains(v) ==> exists|t: int|
                0 <= t < 4 && (v == rotated(s, n, n, t) || v == mirrored(rotated(s, n, n, t), n, n)),
        forall|v: Seq<u32>|
            variants(s, n, n).contains(v) ==> variants(s, n, n).contains(#[trigger] rotated(v, n, n, 1)),
        forall|v: Seq<u32>|
            variants(s, n, n).contains(v) ==> variants(s, n, n).contains(#[trigger] mirrored(v, n, n)),
{
    assert forall|t: int|
        0 <= t < 4 implies variants(s, n, n).contains(#[trigger] rotated(s, n, n, t)) && variants(s, n, n).contains(
        mirrored(rotated(s, n, n, t), n, n),
    ) by {
        lemma_symmetries_are_variants(s, n, t);
    }
    assert forall|v: Seq<u32>| #[trigger] variants(s, n, n).contains(v) implies exists|t: int|
        0 <= t < 4 && (v == rotated(s, n, n, t) || v == mirrored(rotated(s, n, n, t), n, n)) by {
        let t = lemma_variant_is_symmetry(s, n, v);
    }
    assert forall|v: Seq<u32>| variants(s, n, n).contains(v) implies variants(s, n, n).contains(
        #[trigger] rotated(v, n, n, 1),
    ) by {
        lemma_variant_closed(s, n, v);
    }
    assert forall|v: Seq<u32>| variants(s, n, n).contains(v) implies variants(s, n, n).contains(
        #[trigger] mirrored(v, n, n),
    ) by {
        lemma_variant_closed(s, n, v);
    }
}

/// A quarter turn and the mirror image of a variant of a square window are variants too.
proof fn lemma_variant_closed(s: Seq<u32>, n: int, v: Seq<u32>)
    requires
        is_grid(s, n, n),
        n > 0,
        variants(s, n, n).contains(v),
    ensures
        variants(s, n, n).contains(rotated(v, n, n, 1)),
        variants(s, n, n).contains(mirrored(v, n, n)),
{
    let t = lemma_variant_is_symmetry(s, n, v);
    let mirror = v != rotated(s, n, n, t);
    lemma_symmetry_images_closed(s, n, t, mirror);
    lemma_symmetries_are_variants(s, n, t);
    lemma_symmetries_are_variants(s, n, (t + 1) % 4);
    lemma_symmetries_are_variants(s, n, (t + 3) % 4);
}

/// The eight variants of a pattern in the order they are recorded: itself, mirrored, then
/// its rotations by one, two and three right angles, each followed by its mirror image.
pub open spec fn variants(s: Seq<u32>, pw: int, ph: int) -> Seq<Seq<u32>> {
    seq![
        s,
        mirrored(s, pw, ph),
        rotated(s, pw, ph, 1),
        mirrored(rotated(s, pw, ph, 1), pw, ph),
        rotated(s, pw, ph, 2),
        mirrored(rotated(s, pw, ph, 2), pw, ph),
        rotated(s, pw, ph, 3),
        mirrored(rotated(s, pw, ph, 3), pw, ph),
    ]
}

/// The variants of the first `n` windows, windows taken row by row (column fastest)
/// over a grid of positions `ww` wide.
pub open spec fn all_variants(
    indices: Seq<u32>,
    input_width: int,
    pw: int,
    ph: int,
    ww: int,
    n: int,
) -> Seq<Seq<u32>>
    decreases n,
{
    if n <= 0 || ww <= 0 {
        Seq::empty()
    } else {
        all_variants(indices, input_width, pw, ph, ww, n - 1) + variants(
            window(indices, input_width, pw, ph, (n - 1) % ww, (n - 1) / ww),
            pw,
            ph,
        )
    }
}

/// How many times `x` occurs in `s`.
pub open spec fn occurrences(s: Seq<Seq<u32>>, x: Seq<u32>) -> nat
    decreases s.len(),
{
    if s.len() == 0 {
        0
    } else {
        occurrences(s.drop_last(), x) + if s.last() == x {
            1nat
        } else {
            0nat
        }
    }
}

proof fn lemma_occurrences_push(s: Seq<Seq<u32>>, v: Seq<u32>, x: Seq<u32>)
    ensures
        occurrences(s.push(v), x) == occurrences(s, x) + if v == x {
            1nat
        } else {
            0nat
        },
{
    assert(s.push(v).drop_last() =~= s);
}

proof fn lemma_occurrences_bound(s: Seq<Seq<u32>>, x: Seq<u32>)
    ensures
        occurrences(s, x) <= s.len(),
        !s.contains(x) ==> occurrences(s, x) == 0,
    decreases s.len(),
{
    if s.len() > 0 {
        lemma_occurrences_bound(s.drop_last(), x);
        if !s.contains(x) {
            assert(s.last() != x) by {
                assert(s[s.len() - 1] == s.last());
            }
            assert(!s.drop_last().contains(x)) by {
                if s.drop_last().contains(x) {
                    let k = choose|k: int| 0 <= k < s.drop_last().len() && s.drop_last()[k] == x;
                    assert(s[k] == x);
                }
            }
        }
    }
}

/// The sum of the counts.
pub open spec fn total_count(counts: Seq<u32>) -> int
    decreases counts.len(),
{
    if counts.len() == 0 {
        0
    } else {
        total_count(counts.drop_last()) + counts.last()
    }
}

proof fn lemma_total_count_update(counts: Seq<u32>, k: int, c: u32)
    requires
        0 <= k < counts.len(),
    ensures
        total_count(counts.update(k, c)) == total_count(counts) - counts[k] + c,
    decreases counts.len(),
{
    if k < counts.len() - 1 {
        assert(counts.update(k, c).drop_last() =~= counts.drop_last().update(k, c));
        lemma_total_count_update(counts.drop_last(), k, c);
    } else {
        assert(counts.update(k, c).drop_last() =~= counts.drop_last());
    }
}

proof fn lemma_total_count_insert(counts: Seq<u32>, k: int, c: u32)
    requires
        0 <= k <= counts.len(),
    ensures
        total_count(counts.insert(k, c)) == total_count(counts) + c,
    decreases counts.len(),
{
    if k == counts.len() {
        assert(counts.insert(k, c).drop_last() =~= counts);
    } else {
        assert(counts.insert(k, c).drop_last() =~= counts.drop_last().insert(k, c));
        lemma_total_count_insert(counts.drop_last(), k, c);
    }
}

/// The patterns recorded so far, sorted with no sample vector twice, each with its count.
pub open spec fn recorded(patterns: Seq<Pattern>, counts: Seq<u32>, seen: Seq<Seq<u32>>, pw: int, ph: int) -> bool {
    &&& counts.len() == patterns.len()
    &&& patterns.len() <= seen.len()
    &&& total_count(counts) == seen.len()
    &&& forall|i: int| 0 <= i < patterns.len() ==> {
        let p = #[trigger] patterns[i];
        p.wf() && p.width == pw && p.height == ph
    }
    &&& forall|i: int| 0 <= i < patterns.len() - 1 ==> lex_lt(#[trigger] patterns[i].samples@, patterns[i + 1].samples@)
    &&& forall|x: Seq<u32>| seen.contains(x) <==> exists|i: int| 0 <= i < patterns.len() && #[trigger] patterns[i].samples@ == x
    &&& forall|i: int| 0 <= i < patterns.len() ==> #[trigger] counts[i] == occurrences(seen, patterns[i].samples@)
}

/// Whether `a` comes before `b` in lexicographic order.
pub fn samples_less(a: &Vec<u32>, b: &Vec<u32>) -> (r: bool)
    ensures
        r == lex_lt(a@, b@),
{
    let mut k: usize = 0;
    proof {
        assert(a@.skip(0) =~= a@);
        assert(b@.skip(0) =~= b@);
    }
    while k < a.len() && k < b.len()
        invariant
            0 <= k <= a@.len(),
            k <= b@.len(),
            lex_lt(a@, b@) == lex_lt(a@.skip(k as int), b@.skip(k as int)),
        decreases a@.len() - k,
    {
        proof {
            assert(a@.skip(k as int).drop_first() =~= a@.skip(k + 1));
            assert(b@.skip(k as int).drop_first() =~= b@.skip(k + 1));
            assert(a@.skip(k as int)[0] == a@[k as int]);
            assert(b@.skip(k as int)[0] == b@[k as int]);
        }
        if a[k] < b[k] {
            return true;
        }
        if a[k] > b[k] {
            return false;
        }
        k += 1;
    }
    k < b.len()
}

/// Whether `a` and `b` hold the same samples.
pub fn samples_equal(a: &Vec<u32>, b: &Vec<u32>) -> (r: bool)
    ensures
        r == (a@ == b@),
{
    if a.len() != b.len() {
        return false;
    }
    let mut k: usize = 0;
    while k < a.len()
        invariant
            0 <= k <= a@.len(),
            a@.len() == b@.len(),
            forall|m: int| 0 <= m < k ==> a@[m] == b@[m],
        decreases a@.len() - k,
    {
        if a[k] != b[k] {
            return false;
        }
        k += 1;
    }
    proof {
        assert(a@ =~= b@);
    }
    true
}

/// Records one more occurrence of `pattern`: counts it if it is already listed, else
/// inserts it at its place in the sorted list with a count of one.
fn record_pattern(
    patterns: &mut Vec<Pattern>,
    counts: &mut Vec<u32>,
    pattern: Pattern,
    Ghost(seen): Ghost<Seq<Seq<u32>>>,
    Ghost(pw): Ghost<int>,
    Ghost(ph): Ghost<int>,
)
    requires
        recorded(old(patterns)@, old(counts)@, seen, pw, ph),
        pattern.wf(),
        pattern.width == pw,
        pattern.height == ph,
        seen.len() < u32::MAX,
    ensures
        recorded(final(patterns)@, final(counts)@, seen.push(pattern.samples@), pw, ph),
{
    let ghost grown = seen.push(pattern.samples@);
    let n = patterns.len();
    let mut k: usize = 0;
    while k < n
        invariant
            0 <= k <= n,
            n == patterns@.len(),
            patterns@ == old(patterns)@,
            counts@ == old(counts)@,
            recorded(patterns@, counts@, seen, pw, ph),
            forall|m: int| 0 <= m < k ==> patterns@[m].samples@ != pattern.samples@,
            seen.len() < u32::MAX,
            grown == seen.push(pattern.samples@),
            pattern.wf(),
            pattern.width == pw,
            pattern.height == ph,
        decreases n - k,
    {
        if samples_equal(&patterns[k].samples, &pattern.samples) {
            proof {
                lemma_occurrences_bound(seen, pattern.samples@);
            }
            let c = counts[k] + 1;
            proof {
                lemma_total_count_update(counts@, k as int, c);
            }
            counts.set(k, c);
            proof {
                assert forall|x: Seq<u32>| grown.contains(x) <==> exists|i: int|
                    0 <= i < patterns@.len() && #[trigger] patterns@[i].samples@ == x by {
                    if grown.contains(x) {
                        let m = choose|m: int| 0 <= m < grown.len() && grown[m] == x;
                        if m < seen.len() {
                            assert(seen[m] == x);
                            assert(seen.contains(x));
                        }
                    }
                    if x == pattern.samples@ {
                        assert(grown[seen.len() as int] == x);
                    } else if exists|i: int| 0 <= i < patterns@.len() && #[trigger] patterns@[i].samples@ == x {
                        assert(seen.contains(x));
                        let m = choose|m: int| 0 <= m < seen.len() && seen[m] == x;
                        assert(grown[m] == x);
                    }
                }
                assert forall|i: int| 0 <= i < patterns@.len() implies #[trigger] counts@[i]
                    == occurrences(grown, patterns@[i].samples@) by {
                    lemma_occurrences_push(seen, pattern.samples@, patterns@[i].samples@);
                    if i != k {
                        assert(patterns@[i].samples@ != pattern.samples@) by {
                            lemma_sorted_distinct(patterns@, i, k as int);
                        }
                    }
                }
            }
            return;
        }
        k += 1;
    }
    // Not listed: find the first listed pattern that comes after it.
    let mut pos: usize = 0;
    while pos < n && !samples_less(&pattern.samples, &patterns[pos].samples)
        invariant
            0 <= pos <= n,
            n == patterns@.len(),
            forall|m: int| 0 <= m < pos ==> !lex_lt(pattern.samples@, #[trigger] patterns@[m].samples@),
        decreases n - pos,
    {
        pos += 1;
    }
    let ghost old_patterns = patterns@;
    let ghost old_counts = counts@;
    let ghost v = pattern.samples@;
    proof {
        lemma_occurrences_bound(seen, v);
        assert(!seen.contains(v));
        if pos > 0 {
            lemma_lex_total(v, old_patterns[pos - 1].samples@);
            assert(old_patterns[pos - 1].samples@ != v);
            assert(lex_lt(old_patterns[pos - 1].samples@, v));
        }
    }
    patterns.insert(pos, pattern);
    proof {
        lemma_total_count_insert(counts@, pos as int, 1);
    }
    counts.insert(pos, 1);
    proof {
        let ps = patterns@;
        assert forall|i: int| 0 <= i < ps.len() implies {
            let p = #[trigger] ps[i];
            p.wf() && p.width == pw && p.height == ph
        } by {
            if i < pos {
                assert(ps[i] == old_patterns[i]);
            } else if i > pos {
                assert(ps[i] == old_patterns[i - 1]);
            }
        }
        assert forall|i: int| 0 <= i < ps.len() - 1 implies lex_lt(#[trigger] ps[i].samples@, ps[i + 1].samples@) by {
            if i + 1 < pos {
                assert(ps[i] == old_patterns[i]);
                assert(ps[i + 1] == old_patterns[i + 1]);
            } else if i + 1 == pos {
                assert(ps[i] == old_patterns[i]);
            } else if i == pos {
                assert(ps[i + 1] == old_patterns[i]);
            } else {
                assert(ps[i] == old_patterns[i - 1]);
                assert(ps[i + 1] == old_patterns[i]);
            }
        }
        assert forall|x: Seq<u32>| grown.contains(x) <==> exists|i: int|
            0 <= i < ps.len() && #[trigger] ps[i].samples@ == x by {
            if grown.contains(x) {
                let m = choose|m: int| 0 <= m < grown.len() && grown[m] == x;
                if m < seen.len() {
                    assert(seen[m] == x);
                    assert(seen.contains(x));
                    let i = choose|i: int| 0 <= i < old_patterns.len() && #[trigger] old_patterns[i].samples@ == x;
                    if i < pos {
                        assert(ps[i] == old_patterns[i]);
                    } else {
                        assert(ps[i + 1] == old_patterns[i]);
                    }
                } else {
                    assert(ps[pos as int].samples@ == x);
                }
            }
            if exists|i: int| 0 <= i < ps.len() && #[trigger] ps[i].samples@ == x {
                let i = choose|i: int| 0 <= i < ps.len() && #[trigger] ps[i].samples@ == x;
                if i == pos {
                    assert(grown[seen.len() as int] == x);
                } else {
                    let j = if i < pos { i } else { i - 1 };
                    assert(old_patterns[j].samples@ == x);
                    assert(seen.contains(x));
                    let m = choose|m: int| 0 <= m < seen.len() && seen[m] == x;
                    assert(grown[m] == x);
                }
            }
        }
        assert forall|i: int| 0 <= i < ps.len() implies #[trigger] counts@[i] == occurrences(grown, ps[i].samples@) by {
            lemma_occurrences_push(seen, v, ps[i].samples@);
            if i < pos {
                assert(ps[i] == old_patterns[i]);
                assert(counts@[i] == old_counts[i]);
            } else if i > pos {
                assert(ps[i] == old_patterns[i - 1]);
                assert(counts@[i] == old_counts[i - 1]);
            } else {
                assert(occurrences(seen, v) == 0);
            }
        }
    }
}

/// The input admits windows of the pattern extent: the pattern is no longer than the input
/// on either axis.
pub open spec fn pattern_fits(input: Seq<u32>, pattern: Seq<u32>) -> bool {
    pattern[0] <= input[0] && pattern[1] <= input[1]
}

/// The number of window positions along each axis.
pub open spec fn window_span(input: Seq<u32>, pattern: Seq<u32>, axis: int) -> int {
    input[axis] - pattern[axis] + 1
}

/// The variants of every window of the input, in the order they are recorded.
pub open spec fn input_variants<T>(input: Sampled<T, 2>, pattern_dimensions: Dimensions<2>) -> Seq<Seq<u32>> {
    let lens = input.spec_dimensions()@;
    let pd = pattern_dimensions@;
    let ww = window_span(lens, pd, 0);
    let wh = window_span(lens, pd, 1);
    all_variants(input.spec_indices(), lens[0] as int, pd[0] as int, pd[1] as int, ww, ww * wh)
}

/// Extracting patterns from this input needs no more than the integer types hold, and
/// every window can be turned by a right angle inside its own extent.
pub open spec fn extractable<T>(input: Sampled<T, 2>, pattern_dimensions: Dimensions<2>) -> bool {
    let lens = input.spec_dimensions()@;
    let pd = pattern_dimensions@;
    pattern_fits(lens, pd) ==> {
        &&& pd[0] <= pd[1]
        &&& pd[0] * pd[1] <= u32::MAX
        &&& 8 * window_span(lens, pd, 0) * window_span(lens, pd, 1) < u32::MAX
        &&& 32 * window_span(lens, pd, 0) * window_span(lens, pd, 1) <= usize::MAX - 63
    }
}

/// Whether patterns of the given extent can be extracted from this input (see
/// [`extractable`]).
pub fn is_extractable<T>(input: &Sampled<T, 2>, pattern_dimensions: &Dimensions<2>) -> (r: bool)
    ensures
        r == extractable(*input, *pattern_dimensions),
{
    let iw = input.dimensions().get(0) as u64;
    let ih = input.dimensions().get(1) as u64;
    let pw = pattern_dimensions.get(0) as u64;
    let ph = pattern_dimensions.get(1) as u64;
    if pw > iw || ph > ih {
        return true;
    }
    let ww = iw - pw + 1;
    let wh = ih - ph + 1;
    proof {
        assert(pw * ph <= u32::MAX * u32::MAX) by (nonlinear_arith)
            requires
                pw <= u32::MAX,
                ph <= u32::MAX,
        ;
        assert(ww * wh <= u32::MAX * u32::MAX) by (nonlinear_arith)
            requires
                1 <= ww <= u32::MAX,
                1 <= wh <= u32::MAX,
        ;
    }
    let windows = ww * wh;
    proof {
        assert(8 * ww * wh == 8 * (ww * wh)) by (nonlinear_arith);
        assert(32 * ww * wh == 32 * (ww * wh)) by (nonlinear_arith);
        Dimensions::lemma_view_len(input.spec_dimensions());
        Dimensions::lemma_view_len(*pattern_dimensions);
    }
    pw <= ph && pw * ph <= u32::MAX as u64 && windows < (u32::MAX as u64) / 8 + 1 && 8 * windows < u32::MAX as u64
        && 32 * windows <= (usize::MAX - 63) as u64
}

/// The samples of the window of `input` at column `j`, row `i`.
fn window_samples<T>(input: &Sampled<T, 2>, pattern_dimensions: &Dimensions<2>, j: u32, i: u32) -> (r: Pattern)
    requires
        pattern_dimensions@.len() == 2,
        input.spec_dimensions()@.len() == 2,
        pattern_dimensions@[0] > 0,
        pattern_dimensions@[1] > 0,
        j + pattern_dimensions@[0] <= input.spec_dimensions()@[0],
        i + pattern_dimensions@[1] <= input.spec_dimensions()@[1],
        pattern_dimensions@[0] * pattern_dimensions@[1] <= u32::MAX,
    ensures
        r.wf(),
        r.width == pattern_dimensions@[0],
        r.height == pattern_dimensions@[1],
        r.samples@ == window(
            input.spec_indices(),
            input.spec_dimensions()@[0] as int,
            pattern_dimensions@[0] as int,
            pattern_dimensions@[1] as int,
            j as int,
            i as int,
        ),
{
    let pw = pattern_dimensions.get(0);
    let ph = pattern_dimensions.get(1);
    let dims = input.dimensions();
    let indices = input.indices();
    let ghost w = dims@[0] as int;
    let ghost h = dims@[1] as int;
    proof {
        lemma_flat_index_2d(dims@, dims@);
    }
    let mut pattern_samples: Vec<u32> = Vec::new();
    let mut y: u32 = 0;
    while y < ph
        invariant
            pw == pattern_dimensions@[0],
            ph == pattern_dimensions@[1],
            pw > 0,
            ph > 0,
            dims@.len() == 2,
            w == dims@[0],
            h == dims@[1],
            *dims == input.spec_dimensions(),
            indices@ == input.spec_indices(),
            indices@.len() == cell_count(dims@),
            cell_count(dims@) <= usize::MAX,
            cell_count(dims@) == w * h,
            j + pw <= w,
            i + ph <= h,
            y <= ph,
            pattern_samples@.len() == y * pw,
            forall|xx: int, yy: int|
                0 <= xx < pw && 0 <= yy < y ==> #[trigger] sample_at(pattern_samples@, pw as int, xx, yy)
                    == sample_at(indices@, w, j + xx, i + yy),
        decreases ph - y,
    {
        let mut x: u32 = 0;
        while x < pw
            invariant
                pw == pattern_dimensions@[0],
                ph == pattern_dimensions@[1],
                pw > 0,
                dims@.len() == 2,
                w == dims@[0],
                h == dims@[1],
                *dims == input.spec_dimensions(),
                indices@ == input.spec_indices(),
                indices@.len() == cell_count(dims@),
                cell_count(dims@) <= usize::MAX,
                cell_count(dims@) == w * h,
                j + pw <= w,
                i + ph <= h,
                y < ph,
                x <= pw,
                pattern_samples@.len() == y * pw + x,
                forall|xx: int, yy: int|
                    (0 <= xx < pw && 0 <= yy < y) || (yy == y && 0 <= xx < x)
                        ==> #[trigger] sample_at(pattern_samples@, pw as int, xx, yy)
                        == sample_at(indices@, w, j + xx, i + yy),
            decreases pw - x,
        {
            let coord = [j + x, i + y];
            proof {
                assert(coord@ =~= seq![(j + x) as u32, (i + y) as u32]);
                lemma_flat_index_2d(dims@, coord@);
                lemma_cell_in_grid(w, h, (j + x) as int, (i + y) as int);
            }
            let sample_idx = dims.index_of(coord);
            let ghost before = pattern_samples@;
            pattern_samples.push(indices[sample_idx]);
            proof {
                assert forall|xx: int, yy: int|
                    (0 <= xx < pw && 0 <= yy < y) || (yy == y && 0 <= xx < x + 1)
                    implies #[trigger] sample_at(pattern_samples@, pw as int, xx, yy)
                    == sample_at(indices@, w, j + xx, i + yy) by {
                    if yy < y {
                        lemma_cell_in_grid(pw as int, y as int, xx, yy);
                        vstd::arithmetic::mul::lemma_mul_is_commutative(pw as int, y as int);
                        assert(pattern_samples@[yy * pw + xx] == before[yy * pw + xx]);
                        assert(sample_at(before, pw as int, xx, yy) == sample_at(indices@, w, j + xx, i + yy));
                    } else if xx < x {
                        assert(pattern_samples@[yy * pw + xx] == before[yy * pw + xx]);
                        assert(sample_at(before, pw as int, xx, yy) == sample_at(indices@, w, j + xx, i + yy));
                    }
                }
            }
            x += 1;
        }
        proof {
            assert(y * pw + pw == (y + 1) * pw) by (nonlinear_arith);
        }
        y += 1;
    }
    let r = Pattern { samples: pattern_samples, width: pw, height: ph };
    proof {
        let target = window(indices@, w, pw as int, ph as int, j as int, i as int);
        vstd::arithmetic::mul::lemma_mul_is_commutative(pw as int, ph as int);
        assert forall|xx: int, yy: int| 0 <= xx < pw && 0 <= yy < ph implies #[trigger] sample_at(
            r.samples@,
            pw as int,
            xx,
            yy,
        ) == sample_at(target, pw as int, xx, yy) by {
            lemma_cell_in_grid(pw as int, ph as int, xx, yy);
            lemma_cell_index(pw as int, xx, yy);
        }
        lemma_grid_ext(r.samples@, target, pw as int, ph as int);
    }
    r
}

/// Collects every pattern of the input: each window of the pattern extent, and its
/// mirror image, its rotations and their mirror images. The patterns come out sorted by
/// their samples with none twice, each weighted by how often it occurs among all the
/// variants of all windows.
pub fn find_patterns<T>(pattern_dimensions: &Dimensions<2>, sampled_input: &Sampled<T, 2>) -> (r: Result<(Vec<Pattern>, FrequencyHints), PatternError>)
    requires
        extractable(*sampled_input, *pattern_dimensions),
    ensures
        match r {
            Ok((patterns, hints)) => {
                &&& pattern_fits(sampled_input.spec_dimensions()@, pattern_dimensions@)
                &&& recorded(
                    patterns@,
                    hints.weights@,
                    input_variants(*sampled_input, *pattern_dimensions),
                    pattern_dimensions@[0] as int,
                    pattern_dimensions@[1] as int,
                )
                &&& total_count(hints.weights@) == 8 * window_span(
                    sampled_input.spec_dimensions()@,
                    pattern_dimensions@,
                    0,
                ) * window_span(sampled_input.spec_dimensions()@, pattern_dimensions@, 1)
                &&& forall|i: int| 0 <= i < hints.weights@.len() ==> #[trigger] hints.weights@[i] >= 1
            },
            Err(e) => e == PatternError::PatternLargerThanInput && !pattern_fits(
                sampled_input.spec_dimensions()@,
                pattern_dimensions@,
            ),
        },
{
    let dims = sampled_input.dimensions();
    let windows = match dims.windows(*pattern_dimensions) {
        Some(w) => w,
        None => {
            return Err(PatternError::PatternLargerThanInput);
        },
    };
    let pw = pattern_dimensions.get(0);
    let ph = pattern_dimensions.get(1);
    let win_w = windows.get(0);
    let win_h = windows.get(1);
    let ghost lens = dims@;
    let ghost indices = sampled_input.spec_indices();
    let ghost iw = lens[0] as int;
    let mut patterns: Vec<Pattern> = Vec::new();
    let mut counts: Vec<u32> = Vec::new();
    let ghost mut seen: Seq<Seq<u32>> = Seq::empty();
    proof {
        assert(forall|x: Seq<u32>| !seen.contains(x));
        assert(recorded(patterns@, counts@, seen, pw as int, ph as int));
    }
    let mut i: u32 = 0;
    while i < win_h
        invariant
            extractable(*sampled_input, *pattern_dimensions),
            *dims == sampled_input.spec_dimensions(),
            lens == dims@,
            lens.len() == 2,
            indices == sampled_input.spec_indices(),
            iw == lens[0],
            pw == pattern_dimensions@[0],
            ph == pattern_dimensions@[1],
            pattern_dimensions@.len() == 2,
            pw > 0,
            ph > 0,
            pattern_fits(lens, pattern_dimensions@),
            win_w == window_span(lens, pattern_dimensions@, 0),
            win_h == window_span(lens, pattern_dimensions@, 1),
            win_w > 0,
            i <= win_h,
            seen == all_variants(indices, iw, pw as int, ph as int, win_w as int, i * win_w),
            seen.len() == 8 * (i * win_w),
            recorded(patterns@, counts@, seen, pw as int, ph as int),
        decreases win_h - i,
    {
        let mut j: u32 = 0;
        while j < win_w
            invariant
                extractable(*sampled_input, *pattern_dimensions),
                *dims == sampled_input.spec_dimensions(),
                lens == dims@,
                lens.len() == 2,
                indices == sampled_input.spec_indices(),
                iw == lens[0],
                pw == pattern_dimensions@[0],
                ph == pattern_dimensions@[1],
                pattern_dimensions@.len() == 2,
                pw > 0,
                ph > 0,
                pattern_fits(lens, pattern_dimensions@),
                win_w == window_span(lens, pattern_dimensions@, 0),
                win_h == window_span(lens, pattern_dimensions@, 1),
                i < win_h,
                j <= win_w,
                seen == all_variants(indices, iw, pw as int, ph as int, win_w as int, i * win_w + j),
                seen.len() == 8 * (i * win_w + j),
                recorded(patterns@, counts@, seen, pw as int, ph as int),
            decreases win_w - j,
        {
            proof {
                assert(8 * (i * win_w + j) + 8 <= 8 * win_w * win_h) by (nonlinear_arith)
                    requires
                        i < win_h,
                        j < win_w,
                ;
            }
            let new_pattern = window_samples(sampled_input, pattern_dimensions, j, i);
            let ghost s = new_pattern.samples@;
            let base_mirrored = new_pattern.rowwise_mirror();
            let pat_rot_90 = new_pattern.rotate_quarter_turns(1);
            let pat_rot_90_mirrored = pat_rot_90.rowwise_mirror();
            let pat_rot_180 = new_pattern.rotate_quarter_turns(2);
            let pat_rot_180_mirrored = pat_rot_180.rowwise_mirror();
            let pat_rot_270 = new_pattern.rotate_quarter_turns(3);
            let pat_rot_270_mirrored = pat_rot_270.rowwise_mirror();
            let ghost s0 = seen;
            record_pattern(&mut patterns, &mut counts, new_pattern, Ghost(seen), Ghost(pw as int), Ghost(ph as int));
            proof { seen = seen.push(s); }
            record_pattern(&mut patterns, &mut counts, base_mirrored, Ghost(seen), Ghost(pw as int), Ghost(ph as int));
            proof { seen = seen.push(mirrored(s, pw as int, ph as int)); }
            record_pattern(&mut patterns, &mut counts, pat_rot_90, Ghost(seen), Ghost(pw as int), Ghost(ph as int));
            proof { seen = seen.push(rotated(s, pw as int, ph as int, 1)); }
            record_pattern(&mut patterns, &mut counts, pat_rot_90_mirrored, Ghost(seen), Ghost(pw as int), Ghost(ph as int));
            proof { seen = seen.push(mirrored(rotated(s, pw as int, ph as int, 1), pw as int, ph as int)); }
            record_pattern(&mut patterns, &mut counts, pat_rot_180, Ghost(seen), Ghost(pw as int), Ghost(ph as int));
            proof { seen = seen.push(rotated(s, pw as int, ph as int, 2)); }
            record_pattern(&mut patterns, &mut counts, pat_rot_180_mirrored, Ghost(seen), Ghost(pw as int), Ghost(ph as int));
            proof { seen = seen.push(mirrored(rotated(s, pw as int, ph as int, 2), pw as int, ph as int)); }
            record_pattern(&mut patterns, &mut counts, pat_rot_270, Ghost(seen), Ghost(pw as int), Ghost(ph as int));
            proof { seen = seen.push(rotated(s, pw as int, ph as int, 3)); }
            record_pattern(&mut patterns, &mut counts, pat_rot_270_mirrored, Ghost(seen), Ghost(pw as int), Ghost(ph as int));
            proof {
                seen = seen.push(mirrored(rotated(s, pw as int, ph as int, 3), pw as int, ph as int));
                let n = i * win_w + j;
                lemma_cell_index(win_w as int, j as int, i as int);
                assert(n % (win_w as int) == j && n / (win_w as int) == i);
                assert(seen =~= s0 + variants(s, pw as int, ph as int));
                assert(all_variants(indices, iw, pw as int, ph as int, win_w as int, n + 1)
                    == all_variants(indices, iw, pw as int, ph as int, win_w as int, n) + variants(
                    window(indices, iw, pw as int, ph as int, j as int, i as int),
                    pw as int,
                    ph as int,
                ));
            }
            j += 1;
        }
        proof {
            assert(i * win_w + win_w == (i + 1) * win_w) by (nonlinear_arith);
        }
        i += 1;
    }
    proof {
        vstd::arithmetic::mul::lemma_mul_is_commutative(win_w as int, win_h as int);
        assert(8 * (win_h * win_w) == 8 * win_w * win_h) by (nonlinear_arith);
        assert forall|i: int| 0 <= i < counts@.len() implies #[trigger] counts@[i] >= 1 by {
            assert(seen.contains(patterns@[i].samples@));
            lemma_occurrences_positive(seen, patterns@[i].samples@);
        }
    }
    Ok((patterns, FrequencyHints::new(counts)))
}

/// The patterns that may stand one step in direction slot `d` from pattern `p`: those
/// whose overlap with it agrees.
pub open spec fn allowed_neighbours(patterns: Seq<Pattern>, p: int, d: int) -> Set<int> {
    Set::new(|j: int| 0 <= j < patterns.len() && overlap_agrees(patterns[p], patterns[j], direction_of_slot(d)))
}

/// Every pattern is a well formed `width` by `height` grid, at least one sample each way.
pub open spec fn uniform_patterns(patterns: Seq<Pattern>, width: int, height: int) -> bool {
    &&& width >= 1
    &&& height >= 1
    &&& forall|i: int| 0 <= i < patterns.len() ==> {
        let p = #[trigger] patterns[i];
        p.wf() && p.width == width && p.height == height
    }
}

/// The rule table of a list of patterns: for each pattern and direction, the set of
/// patterns that may stand next to it that way. The rule for pattern `p` and direction
/// slot `d` stands at `p * 4 + d` and has room for every pattern index.
pub fn recognize_adjadency_rules(patterns: &[Pattern]) -> (r: AdjadencyRules)
    requires
        patterns@.len() > 0 ==> uniform_patterns(patterns@, patterns@[0].width as int, patterns@[0].height as int),
        patterns@.len() <= usize::MAX - 63,
        patterns@.len() * NUM_DIRECTIONS <= usize::MAX,
    ensures
        r@.len() == patterns@.len() * NUM_DIRECTIONS,
        forall|q: int| 0 <= q < r@.len() ==> {
            &&& (#[trigger] r@[q])@ == allowed_neighbours(patterns@, q / NUM_DIRECTIONS as int, q % NUM_DIRECTIONS as int)
            &&& r@[q].capacity() == 64 * words_for_bits(patterns@.len() as int)
        },
{
    let num_patterns = patterns.len();
    let num_directions = NUM_DIRECTIONS;
    let empty = SimpleBitSet::new(num_patterns);
    let mut rules: Vec<SimpleBitSet> = vec![empty; num_patterns * num_directions];
    let ghost cap = 64 * words_for_bits(num_patterns as int);
    let mut i: usize = 0;
    while i < num_patterns
        invariant
            0 <= i <= num_patterns,
            num_patterns == patterns@.len(),
            num_directions == NUM_DIRECTIONS,
            num_patterns > 0 ==> uniform_patterns(patterns@, patterns@[0].width as int, patterns@[0].height as int),
            num_patterns * num_directions <= usize::MAX,
            cap == 64 * words_for_bits(num_patterns as int),
            rules@.len() == num_patterns * num_directions,
            forall|q: int| 0 <= q < rules@.len() ==> (#[trigger] rules@[q]).capacity() == cap,
            forall|q: int| 0 <= q < i * NUM_DIRECTIONS ==> (#[trigger] rules@[q])@ == allowed_neighbours(
                patterns@,
                q / NUM_DIRECTIONS as int,
                q % NUM_DIRECTIONS as int,
            ),
            forall|q: int| i * NUM_DIRECTIONS <= q < rules@.len() ==> (#[trigger] rules@[q])@ == Set::<int>::empty(),
        decreases num_patterns - i,
    {
        let first_pattern = &patterns[i];
        let mut j: usize = 0;
        while j < num_patterns
            invariant
                0 <= i < num_patterns,
                0 <= j <= num_patterns,
                num_patterns == patterns@.len(),
                num_directions == NUM_DIRECTIONS,
                uniform_patterns(patterns@, patterns@[0].width as int, patterns@[0].height as int),
                *first_pattern == patterns@[i as int],
                num_patterns * num_directions <= usize::MAX,
                cap == 64 * words_for_bits(num_patterns as int),
                rules@.len() == num_patterns * num_directions,
                forall|q: int| 0 <= q < rules@.len() ==> (#[trigger] rules@[q]).capacity() == cap,
                forall|q: int| 0 <= q < i * NUM_DIRECTIONS ==> (#[trigger] rules@[q])@ == allowed_neighbours(
                    patterns@,
                    q / NUM_DIRECTIONS as int,
                    q % NUM_DIRECTIONS as int,
                ),
                forall|d: int| 0 <= d < NUM_DIRECTIONS ==> (#[trigger] rules@[i * NUM_DIRECTIONS + d])@ == allowed_neighbours(
                    patterns@,
                    i as int,
                    d,
                ).filter(|k: int| k < j),
                forall|q: int| (i + 1) * NUM_DIRECTIONS <= q < rules@.len() ==> (#[trigger] rules@[q])@ == Set::<int>::empty(),
            decreases num_patterns - j,
        {
            let second_pattern = &patterns[j];
            let mut t: usize = 0;
            while t < ALL_DIRECTIONS.len()
                invariant
                    0 <= i < num_patterns,
                    0 <= j < num_patterns,
                    0 <= t <= 4,
                    num_patterns == patterns@.len(),
                    num_directions == NUM_DIRECTIONS,
                    uniform_patterns(patterns@, patterns@[0].width as int, patterns@[0].height as int),
                    *first_pattern == patterns@[i as int],
                    *second_pattern == patterns@[j as int],
                    num_patterns * num_directions <= usize::MAX,
                    cap == 64 * words_for_bits(num_patterns as int),
                    rules@.len() == num_patterns * num_directions,
                    forall|q: int| 0 <= q < rules@.len() ==> (#[trigger] rules@[q]).capacity() == cap,
                    forall|q: int| 0 <= q < i * NUM_DIRECTIONS ==> (#[trigger] rules@[q])@ == allowed_neighbours(
                        patterns@,
                        q / NUM_DIRECTIONS as int,
                        q % NUM_DIRECTIONS as int,
                    ),
                    forall|d: int| 0 <= d < NUM_DIRECTIONS ==> (#[trigger] rules@[i * NUM_DIRECTIONS + d])@ == allowed_neighbours(
                        patterns@,
                        i as int,
                        d,
                    ).filter(|k: int| k < j + if slot_done(d, t as int) { 1int } else { 0int }),
                    forall|q: int| (i + 1) * NUM_DIRECTIONS <= q < rules@.len() ==> (#[trigger] rules@[q])@ == Set::<int>::empty(),
                decreases 4 - t,
            {
                let dir = ALL_DIRECTIONS[t];
                assert(dir == direction_of_slot(slot_of_listed(t as int)));
                let d = dir.index();
                proof {
                    assert(d == slot_of_listed(t as int));
                    assert((i as int) * 4 + (d as int) < (num_patterns as int) * 4) by (nonlinear_arith)
                        requires
                            i < num_patterns,
                            d < 4,
                    ;
                }
                let q = i * num_directions + d;
                let ghost before = rules@;
                let compatible = first_pattern.compatible(second_pattern, &dir);
                if compatible {
                    proof {
                        vstd::set_lib::lemma_int_range(0, 1);
                    }
                    rules[q].set(j);
                }
                proof {
                    assert forall|dd: int| 0 <= dd < NUM_DIRECTIONS implies (#[trigger] rules@[i * NUM_DIRECTIONS + dd])@ == allowed_neighbours(
                        patterns@,
                        i as int,
                        dd,
                    ).filter(|k: int| k < j + if slot_done(dd, t + 1) { 1int } else { 0int }) by {
                        if dd == d {
                            assert(slot_done(dd, t + 1));
                            assert(!slot_done(dd, t as int)) by {
                                if slot_done(dd, t as int) {
                                    let u = choose|u: int| 0 <= u < t && slot_of_listed(u) == dd;
                                }
                            }
                            assert(compatible == allowed_neighbours(patterns@, i as int, dd).contains(j as int));
                            assert(rules@[i * NUM_DIRECTIONS + dd]@ =~= allowed_neighbours(patterns@, i as int, dd).filter(|k: int| k < j + 1));
                        } else {
                            assert(slot_done(dd, t + 1) == slot_done(dd, t as int)) by {
                                if slot_done(dd, t + 1) {
                                    let u = choose|u: int| 0 <= u < t + 1 && slot_of_listed(u) == dd;
                                    assert(u != t);
                                }
                            }
                            assert(rules@[i * NUM_DIRECTIONS + dd] == before[i * NUM_DIRECTIONS + dd]);
                        }
                    }
                }
                t += 1;
            }
            proof {
                assert forall|dd: int| 0 <= dd < NUM_DIRECTIONS implies slot_done(dd, 4) by {
                    let u = if dd == 0 { 0int } else if dd == 1 { 1int } else if dd == 2 { 3int } else { 2int };
                    assert(slot_of_listed(u) == dd);
                }
            }
            j += 1;
        }
        proof {
            assert forall|q: int| 0 <= q < (i + 1) * NUM_DIRECTIONS implies (#[trigger] rules@[q])@ == allowed_neighbours(
                patterns@,
                q / NUM_DIRECTIONS as int,
                q % NUM_DIRECTIONS as int,
            ) by {
                if q >= i * NUM_DIRECTIONS {
                    let dd = q - i * NUM_DIRECTIONS;
                    assert(q / 4 == i && q % 4 == dd) by {
                        vstd::arithmetic::div_mod::lemma_fundamental_div_mod_converse(q, 4, i as int, dd);
                    }
                    assert(rules@[i * NUM_DIRECTIONS + dd]@ == allowed_neighbours(patterns@, i as int, dd).filter(|k: int| k < num_patterns));
                    assert(allowed_neighbours(patterns@, i as int, dd).filter(|k: int| k < num_patterns) =~= allowed_neighbours(patterns@, i as int, dd));
                }
            }
        }
        i += 1;
    }
    rules
}

/// The overlapping parts of two equally sized patterns agree when `other` is placed `dx`
/// columns right of `this` and `dy` rows below it (negative offsets go left and up).
pub open spec fn agrees_at_offset(this: Pattern, other: Pattern, dx: int, dy: int) -> bool {
    let w = this.width as int;
    let h = this.height as int;
    forall|col: int, row: int|
        0 <= col < w && 0 <= row < h && 0 <= col - dx < w && 0 <= row - dy < h ==> #[trigger] sample_at(
            this.samples@,
            w,
            col,
            row,
        ) == sample_at(other.samples@, other.width as int, col - dx, row - dy)
}

/// The rule slots follow the grid the solver runs on: where cell `b` is the neighbour of
/// cell `i` in direction slot `d` of a `width` by `height` grid (see
/// [`crate::wfc_state::neighbour`]), the patterns the rule of pattern `p` in slot `d` allows
/// are exactly those whose overlap with `p` agrees when placed as `b` lies from `i`:
/// `b`'s column minus `i`'s column to the right and `b`'s row minus `i`'s row down.
/// So the rule at `p * 4 + 2` lists the patterns that may stand at index `i + 1`.
pub proof fn lemma_rule_slots_follow_the_grid(
    patterns: Seq<Pattern>,
    p: int,
    j: int,
    d: int,
    i: int,
    b: int,
    width: int,
    height: int,
)
    requires
        0 <= p < patterns.len(),
        0 <= j < patterns.len(),
        0 <= d < 4,
        width > 0,
        height > 0,
        0 <= i < width * height,
        neighbour(i, width, height, d) == Some(b),
    ensures
        allowed_neighbours(patterns, p, d).contains(j) <==> agrees_at_offset(
            patterns[p],
            patterns[j],
            b % width - i % width,
            b / width - i / width,
        ),
{
    let x = i % width;
    let y = i / width;
    lemma_index_cell(width, height, i);
    let (bx, by) = if d == 0 {
        (x, y - 1)
    } else if d == 1 {
        (x, y + 1)
    } else if d == 2 {
        (x + 1, y)
    } else {
        (x - 1, y)
    };
    assert(b == by * width + bx) by (nonlinear_arith)
        requires
            i == y * width + x,
            d == 0 ==> b == i - width && bx == x && by == y - 1,
            d == 1 ==> b == i + width && bx == x && by == y + 1,
            d == 2 ==> b == i + 1 && bx == x + 1 && by == y,
            d == 3 ==> b == i - 1 && bx == x - 1 && by == y,
            0 <= d < 4,
    ;
    lemma_cell_index(width, bx, by);
    let this = patterns[p];
    let other = patterns[j];
    let (dx, dy) = (bx - x, by - y);
    let a = this.samples@;
    let bs = other.samples@;
    let w = this.width as int;
    let h = this.height as int;
    let bw = other.width as int;
    if d == 0 {
        assert(overlap_agrees(this, other, Direction::Up) <==> agrees_at_offset(this, other, dx, dy)) by {
            if overlap_agrees(this, other, Direction::Up) {
                assert forall|col: int, row: int|
                    0 <= col < w && 0 <= row < h && 0 <= col - dx < w && 0 <= row - dy < h implies #[trigger] sample_at(a, w, col, row)
                        == sample_at(bs, bw, col - dx, row - dy) by {
                    assert(0 <= row < h - 1 && 0 <= col < w);
                }
            }
            if agrees_at_offset(this, other, dx, dy) {
                assert forall|row: int, col: int|
                    0 <= row < h - 1 && 0 <= col < w implies #[trigger] sample_at(a, w, col, row) == sample_at(bs, bw, col, row + 1) by {
                    assert(0 <= row - dy < h);
                }
            }
        }
    } else if d == 1 {
        assert(overlap_agrees(this, other, Direction::Down) <==> agrees_at_offset(this, other, dx, dy)) by {
            if overlap_agrees(this, other, Direction::Down) {
                assert forall|col: int, row: int|
                    0 <= col < w && 0 <= row < h && 0 <= col - dx < w && 0 <= row - dy < h implies #[trigger] sample_at(a, w, col, row)
                        == sample_at(bs, bw, col - dx, row - dy) by {
                    assert(1 <= row < h && 0 <= col < w);
                }
            }
            if agrees_at_offset(this, other, dx, dy) {
                assert forall|row: int, col: int|
                    1 <= row < h && 0 <= col < w implies #[trigger] sample_at(a, w, col, row) == sample_at(bs, bw, col, row - 1) by {
                    assert(0 <= row - dy < h);
                }
            }
        }
    } else if d == 2 {
        assert(overlap_agrees(this, other, Direction::Right) <==> agrees_at_offset(this, other, dx, dy)) by {
            if overlap_agrees(this, other, Direction::Right) {
                assert forall|col: int, row: int|
                    0 <= col < w && 0 <= row < h && 0 <= col - dx < w && 0 <= row - dy < h implies #[trigger] sample_at(a, w, col, row)
                        == sample_at(bs, bw, col - dx, row - dy) by {
                    assert(0 <= row < h && 1 <= col < w);
                }
            }
            if agrees_at_offset(this, other, dx, dy) {
                assert forall|row: int, col: int|
                    0 <= row < h && 1 <= col < w implies #[trigger] sample_at(a, w, col, row) == sample_at(bs, bw, col - 1, row) by {
                    assert(0 <= col - dx < w);
                }
            }
        }
    } else {
        assert(overlap_agrees(this, other, Direction::Left) <==> agrees_at_offset(this, other, dx, dy)) by {
            if overlap_agrees(this, other, Direction::Left) {
                assert forall|col: int, row: int|
                    0 <= col < w && 0 <= row < h && 0 <= col - dx < w && 0 <= row - dy < h implies #[trigger] sample_at(a, w, col, row)
                        == sample_at(bs, bw, col - dx, row - dy) by {
                    assert(0 <= row < h && 0 <= col < w - 1);
                }
            }
            if agrees_at_offset(this, other, dx, dy) {
                assert forall|row: int, col: int|
                    0 <= row < h && 0 <= col < w - 1 implies #[trigger] sample_at(a, w, col, row) == sample_at(bs, bw, col + 1, row) by {
                    assert(0 <= col - dx < w);
                }
            }
        }
    }
}

/// The slot of the `t`-th direction of `ALL_DIRECTIONS`.
pub open spec fn slot_of_listed(t: int) -> int {
    if t == 0 { 0 } else if t == 1 { 1 } else if t == 2 { 3 } else { 2 }
}

/// Direction slot `d` comes among the first `t` directions of `ALL_DIRECTIONS`.
pub open spec fn slot_done(d: int, t: int) -> bool {
    exists|u: int| 0 <= u < t && slot_of_listed(u) == d
}

/// Learns a rule model from a sampled input: its patterns of the given extent (every
/// window with its mirror images and rotations), their weights, and which may stand next
/// to which in each direction.
pub fn create_pattern_model<T>(input: &Sampled<T, 2>, pattern_dimensions: &Dimensions<2>) -> (r: Result<RuleModel, PatternError>)
    requires
        extractable(*input, *pattern_dimensions),
    ensures
        match r {
            Ok(m) => {
                &&& pattern_fits(input.spec_dimensions()@, pattern_dimensions@)
                &&& recorded(
                    m.patterns@,
                    m.frequency_hints.weights@,
                    input_variants(*input, *pattern_dimensions),
                    pattern_dimensions@[0] as int,
                    pattern_dimensions@[1] as int,
                )
                &&& m.adjadency_rules@.len() == m.patterns@.len() * NUM_DIRECTIONS
                &&& forall|q: int| 0 <= q < m.adjadency_rules@.len() ==> {
                    &&& (#[trigger] m.adjadency_rules@[q])@ == allowed_neighbours(
                        m.patterns@,
                        q / NUM_DIRECTIONS as int,
                        q % NUM_DIRECTIONS as int,
                    )
                    &&& m.adjadency_rules@[q].capacity() == 64 * words_for_bits(m.patterns@.len() as int)
                }
                &&& m.num_directions == NUM_DIRECTIONS
                &&& m.pattern_dimensions == *pattern_dimensions
                &&& validation_errors(m).len() == 0
                &&& m.patterns@.len() * m.num_directions <= usize::MAX
                &&& forall|q: int| 0 <= q < m.adjadency_rules@.len() ==> (#[trigger] m.adjadency_rules@[q])@.len() <= u32::MAX
            },
            Err(e) => e == PatternError::PatternLargerThanInput && !pattern_fits(
                input.spec_dimensions()@,
                pattern_dimensions@,
            ),
        },
{
    let (patterns, frequency_hints) = find_patterns(pattern_dimensions, input)?;
    proof {
        let lens = input.spec_dimensions()@;
        let pd = pattern_dimensions@;
        let ww = window_span(lens, pd, 0);
        let wh = window_span(lens, pd, 1);
        Dimensions::lemma_view_len(input.spec_dimensions());
        Dimensions::lemma_view_len(*pattern_dimensions);
        use_type_invariant(pattern_dimensions);
        Dimensions::lemma_positive_axes(*pattern_dimensions);
        assert(ww > 0 && wh > 0);
        assert(ww * wh > 0) by (nonlinear_arith)
            requires
                ww > 0,
                wh > 0,
        ;
        lemma_all_variants_len(input.spec_indices(), lens[0] as int, pd[0] as int, pd[1] as int, ww, ww * wh);
        assert(8 * (ww * wh) == 8 * ww * wh) by (nonlinear_arith);
        assert(input_variants(*input, *pattern_dimensions).len() == 8 * (ww * wh));
        assert(32 * ww * wh == 4 * (8 * ww * wh)) by (nonlinear_arith);
        assert(patterns@.len() * 4 <= usize::MAX - 63);
        if patterns@.len() > 0 {
            assert(patterns@[0].wf());
        }
    }
    let adjadency_rules = recognize_adjadency_rules(patterns.as_slice());
    let model = RuleModel {
        patterns,
        adjadency_rules,
        frequency_hints,
        num_directions: NUM_DIRECTIONS,
        pattern_dimensions: *pattern_dimensions,
    };
    proof {
        let seen = input_variants(*input, *pattern_dimensions);
        let ps = model.patterns@;
        let np = ps.len() as int;
        assert(seen.len() > 0);
        assert(seen.contains(seen[0]));
        assert(np > 0);
        assert forall|i: int| 0 <= i < model.frequency_hints.weights@.len() implies #[trigger] model.frequency_hints.weights@[i]
            > 0 by {
            assert(seen.contains(ps[i].samples@));
            lemma_occurrences_positive(seen, ps[i].samples@);
        }
        vstd::set_lib::lemma_int_range(0, np);
        assert forall|q: int| 0 <= q < model.adjadency_rules@.len() implies (#[trigger] model.adjadency_rules@[q])@.len()
            <= u32::MAX by {
            let rule = model.adjadency_rules@[q]@;
            assert(rule.subset_of(vstd::set_lib::set_int_range(0, np)));
            vstd::set_lib::lemma_len_subset(rule, vstd::set_lib::set_int_range(0, np));
        }
        lemma_valid_model(model);
    }
    Ok(model)
}

/// Two sequences of sample vectors of one length, each sorted strictly in lexicographic
/// order, that hold the same vectors are the same.
proof fn lemma_sorted_samples_equal(a: Seq<Seq<u32>>, b: Seq<Seq<u32>>, len: nat)
    requires
        forall|i: int, j: int| 0 <= i < j < a.len() ==> lex_lt(#[trigger] a[i], #[trigger] a[j]),
        forall|i: int, j: int| 0 <= i < j < b.len() ==> lex_lt(#[trigger] b[i], #[trigger] b[j]),
        forall|i: int| 0 <= i < a.len() ==> (#[trigger] a[i]).len() == len,
        forall|i: int| 0 <= i < b.len() ==> (#[trigger] b[i]).len() == len,
        forall|x: Seq<u32>| a.contains(x) <==> b.contains(x),
    ensures
        a == b,
    decreases a.len() + b.len(),
{
    if a.len() == 0 {
        if b.len() > 0 {
            assert(b.contains(b[0]));
        }
        assert(a =~= b);
    } else if b.len() == 0 {
        assert(a.contains(a[0]));
    } else {
        assert(a.contains(a[0]));
        assert(b.contains(b[0]));
        let k = choose|k: int| 0 <= k < b.len() && b[k] == a[0];
        let m = choose|m: int| 0 <= m < a.len() && a[m] == b[0];
        lemma_lex_total(a[0], a[0]);
        if k > 0 {
            assert(lex_lt(b[0], b[k]));
            if m > 0 {
                assert(lex_lt(a[0], a[m]));
                lemma_lex_total(a[0], b[0]);
            }
        }
        assert(a[0] == b[0]) by {
            if a[0] != b[0] {
                assert(k > 0 && m > 0);
            }
        }
        let a2 = a.drop_first();
        let b2 = b.drop_first();
        assert forall|x: Seq<u32>| a2.contains(x) <==> b2.contains(x) by {
            if a2.contains(x) {
                let i = choose|i: int| 0 <= i < a2.len() && a2[i] == x;
                assert(a[i + 1] == x);
                assert(lex_lt(a[0], a[i + 1]));
                assert(b.contains(x));
                let j = choose|j: int| 0 <= j < b.len() && b[j] == x;
                if j == 0 {
                    lemma_lex_total(x, x);
                }
                assert(b2[j - 1] == x);
            }
            if b2.contains(x) {
                let i = choose|i: int| 0 <= i < b2.len() && b2[i] == x;
                assert(b[i + 1] == x);
                assert(lex_lt(b[0], b[i + 1]));
                assert(a.contains(x));
                let j = choose|j: int| 0 <= j < a.len() && a[j] == x;
                if j == 0 {
                    lemma_lex_total(x, x);
                }
                assert(a2[j - 1] == x);
            }
        }
        assert forall|i: int, j: int| 0 <= i < j < a2.len() implies lex_lt(#[trigger] a2[i], #[trigger] a2[j]) by {
            assert(lex_lt(a[i + 1], a[j + 1]));
        }
        assert forall|i: int, j: int| 0 <= i < j < b2.len() implies lex_lt(#[trigger] b2[i], #[trigger] b2[j]) by {
            assert(lex_lt(b[i + 1], b[j + 1]));
        }
        lemma_sorted_samples_equal(a2, b2, len);
        assert(a =~= seq![a[0]] + a2);
        assert(b =~= seq![b[0]] + b2);
    }
}

/// The patterns and counts recorded for a sequence of sample vectors are determined by
/// it: two records of the same vectors list the same samples in the same order, with the
/// same counts. So extracting patterns twice from one input gives the same result.
pub proof fn lemma_recorded_unique(
    p1: Seq<Pattern>,
    c1: Seq<u32>,
    p2: Seq<Pattern>,
    c2: Seq<u32>,
    seen: Seq<Seq<u32>>,
    pw: int,
    ph: int,
)
    requires
        recorded(p1, c1, seen, pw, ph),
        recorded(p2, c2, seen, pw, ph),
    ensures
        p1.len() == p2.len(),
        forall|i: int|
            0 <= i < p1.len() ==> (#[trigger] p1[i]).samples@ == p2[i].samples@ && p1[i].width == p2[i].width
                && p1[i].height == p2[i].height,
        c1 == c2,
{
    let a = Seq::new(p1.len(), |i: int| p1[i].samples@);
    let b = Seq::new(p2.len(), |i: int| p2[i].samples@);
    if p1.len() > 0 {
        assert(p1[0].wf());
    }
    let len = if p1.len() > 0 { p1[0].samples@.len() } else { 0 };
    assert forall|i: int, j: int| 0 <= i < j < a.len() implies lex_lt(#[trigger] a[i], #[trigger] a[j]) by {
        assert(p1[i].wf() && p1[0].wf());
        assert forall|k: int| 0 <= k < p1.len() implies (#[trigger] p1[k]).samples@.len() == p1[0].samples@.len() by {
            assert(p1[k].wf());
        }
        lemma_sorted_chain(p1, i, j);
    }
    assert forall|i: int, j: int| 0 <= i < j < b.len() implies lex_lt(#[trigger] b[i], #[trigger] b[j]) by {
        assert forall|k: int| 0 <= k < p2.len() implies (#[trigger] p2[k]).samples@.len() == p2[0].samples@.len() by {
            assert(p2[k].wf());
        }
        lemma_sorted_chain(p2, i, j);
    }
    assert forall|i: int| 0 <= i < a.len() implies (#[trigger] a[i]).len() == len by {
        assert(p1[i].wf());
    }
    assert forall|i: int| 0 <= i < b.len() implies (#[trigger] b[i]).len() == len by {
        assert(p2[i].wf());
    }
    assert forall|x: Seq<u32>| a.contains(x) <==> b.contains(x) by {
        if a.contains(x) {
            let i = choose|i: int| 0 <= i < a.len() && a[i] == x;
            assert(p1[i].samples@ == x);
            assert(seen.contains(x));
            let j = choose|j: int| 0 <= j < p2.len() && #[trigger] p2[j].samples@ == x;
            assert(b[j] == x);
        }
        if b.contains(x) {
            let i = choose|i: int| 0 <= i < b.len() && b[i] == x;
            assert(p2[i].samples@ == x);
            assert(seen.contains(x));
            let j = choose|j: int| 0 <= j < p1.len() && #[trigger] p1[j].samples@ == x;
            assert(a[j] == x);
        }
    }
    lemma_sorted_samples_equal(a, b, len);
    assert(p1.len() == p2.len());
    assert forall|i: int| 0 <= i < p1.len() implies (#[trigger] p1[i]).samples@ == p2[i].samples@ && p1[i].width
        == p2[i].width && p1[i].height == p2[i].height by {
        assert(a[i] == b[i]);
        assert(p1[i].wf() && p2[i].wf());
    }
    assert forall|i: int| 0 <= i < c1.len() implies c1[i] == c2[i] by {
        assert(a[i] == b[i]);
    }
    assert(c1 =~= c2);
}

/// A value that occurs in a sequence occurs at least once.
proof fn lemma_occurrences_positive(s: Seq<Seq<u32>>, x: Seq<u32>)
    requires
        s.contains(x),
    ensures
        occurrences(s, x) >= 1,
    decreases s.len(),
{
    if s.last() != x {
        let k = choose|k: int| 0 <= k < s.len() && s[k] == x;
        assert(k < s.len() - 1);
        assert(s.drop_last()[k] == x);
        lemma_occurrences_positive(s.drop_last(), x);
    }
}

/// The variants of `n` windows are eight per window.
pub proof fn lemma_all_variants_len(indices: Seq<u32>, input_width: int, pw: int, ph: int, ww: int, n: int)
    requires
        0 <= n,
        ww > 0,
    ensures
        all_variants(indices, input_width, pw, ph, ww, n).len() == 8 * n,
    decreases n,
{
    if n > 0 {
        lemma_all_variants_len(indices, input_width, pw, ph, ww, n - 1);
    }
}

/// In a list sorted strictly by `lex_lt` over one sample length, entries at different
/// places differ.
proof fn lemma_sorted_distinct(ps: Seq<Pattern>, i: int, j: int)
    requires
        0 <= i < ps.len(),
        0 <= j < ps.len(),
        i != j,
        forall|k: int| 0 <= k < ps.len() - 1 ==> lex_lt(#[trigger] ps[k].samples@, ps[k + 1].samples@),
        forall|k: int| 0 <= k < ps.len() ==> (#[trigger] ps[k]).samples@.len() == ps[0].samples@.len(),
    ensures
        ps[i].samples@ != ps[j].samples@,
{
    let (a, b) = if i < j { (i, j) } else { (j, i) };
    lemma_sorted_chain(ps, a, b);
    lemma_lex_total(ps[a].samples@, ps[b].samples@);
}

proof fn lemma_sorted_chain(ps: Seq<Pattern>, a: int, b: int)
    requires
        0 <= a < b < ps.len(),
        forall|k: int| 0 <= k < ps.len() - 1 ==> lex_lt(#[trigger] ps[k].samples@, ps[k + 1].samples@),
        forall|k: int| 0 <= k < ps.len() ==> (#[trigger] ps[k]).samples@.len() == ps[0].samples@.len(),
    ensures
        lex_lt(ps[a].samples@, ps[b].samples@),
    decreases b - a,
{
    if b > a + 1 {
        lemma_sorted_chain(ps, a, b - 1);
        lemma_lex_transitive(ps[a].samples@, ps[b - 1].samples@, ps[b].samples@);
    }
}

/// Lexicographic order is transitive.
pub proof fn lemma_lex_transitive(a: Seq<u32>, b: Seq<u32>, c: Seq<u32>)
    requires
        lex_lt(a, b),
        lex_lt(b, c),
    ensures
        lex_lt(a, c),
    decreases a.len(),
{
    if a.len() > 0 && b.len() > 0 && c.len() > 0 && a[0] == b[0] && b[0] == c[0] {
        lemma_lex_transitive(a.drop_first(), b.drop_first(), c.drop_first());
    }
}

} // verus!
