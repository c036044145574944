//! Sliding and merging of one canonical line of the merge board.
//!
//! A line is read toward its moving edge (position 0).  A move first closes
//! the gaps (compaction), then merges equal adjacent pairs left-to-right,
//! each cell merging at most once per move, and pads with empty cells.  The
//! score gained is the sum of the merged values.

use crate::tile::tile_ok;
use vstd::prelude::*;

verus! {

/// The non-empty cells of a line, in order.
pub open spec fn nonzeros(s: Seq<u32>) -> Seq<u32>
    decreases s.len(),
{
    if s.len() == 0 {
        Seq::empty()
    } else if s[0] == 0u32 {
        nonzeros(s.skip(1))
    } else {
        seq![s[0]] + nonzeros(s.skip(1))
    }
}

/// Merge equal adjacent pairs left-to-right; the earliest pair wins and a
/// merged cell cannot merge again.  A pair merges only while its doubled
/// value still fits in a `u32`.
pub open spec fn merge_pairs(s: Seq<u32>) -> Seq<u32>
    decreases s.len(),
{
    if s.len() < 2 {
        s
    } else if s[0] == s[1] && s[0] < 0x8000_0000u32 {
        seq![(s[0] + s[1]) as u32] + merge_pairs(s.skip(2))
    } else {
        seq![s[0]] + merge_pairs(s.skip(1))
    }
}

/// Score gained by `merge_pairs`: the sum of the merged values.
pub open spec fn merge_score(s: Seq<u32>) -> int
    decreases s.len(),
{
    if s.len() < 2 {
        0
    } else if s[0] == s[1] && s[0] < 0x8000_0000u32 {
        s[0] + s[1] + merge_score(s.skip(2))
    } else {
        merge_score(s.skip(1))
    }
}

/// `n` empty cells.
pub open spec fn zeros(n: nat) -> Seq<u32> {
    Seq::new(n, |i: int| 0u32)
}

/// The line after a move toward position 0: compacted, merged, padded.
pub open spec fn slide_spec(s: Seq<u32>) -> Seq<u32> {
    let m = merge_pairs(nonzeros(s));
    m + zeros((s.len() - m.len()) as nat)
}

/// Score gained by a move of this line.
pub open spec fn slide_score(s: Seq<u32>) -> int {
    merge_score(nonzeros(s))
}

/// Every cell of `s` is a well-formed tile value.
pub open spec fn line_tiles_ok(s: Seq<u32>) -> bool {
    forall|i: int| 0 <= i < s.len() ==> tile_ok(#[trigger] s[i])
}

pub proof fn lemma_nonzeros_props(s: Seq<u32>)
    ensures
        nonzeros(s).len() <= s.len(),
        forall|i: int| 0 <= i < nonzeros(s).len() ==> #[trigger] nonzeros(s)[i] != 0,
        line_tiles_ok(s) ==> line_tiles_ok(nonzeros(s)),
    decreases s.len(),
{
    if s.len() == 0 {
    } else {
        lemma_nonzeros_props(s.skip(1));
        assert(line_tiles_ok(s) ==> line_tiles_ok(s.skip(1)));
    }
}

pub proof fn lemma_merge_pairs_props(s: Seq<u32>)
    requires
        forall|i: int| 0 <= i < s.len() ==> #[trigger] s[i] != 0,
    ensures
        merge_pairs(s).len() <= s.len(),
        forall|i: int| 0 <= i < merge_pairs(s).len() ==> #[trigger] merge_pairs(s)[i] != 0,
        line_tiles_ok(s) ==> line_tiles_ok(merge_pairs(s)),
        merge_score(s) >= 0,
    decreases s.len(),
{
    if s.len() < 2 {
    } else if s[0] == s[1] && s[0] < 0x8000_0000u32 {
        lemma_merge_pairs_props(s.skip(2));
        if line_tiles_ok(s) {
            crate::tile::lemma_double_tile(s[0]);
            assert(line_tiles_ok(s.skip(2)));
        }
    } else {
        lemma_merge_pairs_props(s.skip(1));
        assert(line_tiles_ok(s) ==> line_tiles_ok(s.skip(1)));
    }
}

/// If merging loses no cell, it merged nothing: the line and score are
/// untouched.
pub proof fn lemma_merge_pairs_len_eq(s: Seq<u32>)
    requires
        forall|i: int| 0 <= i < s.len() ==> #[trigger] s[i] != 0,
        merge_pairs(s).len() == s.len(),
    ensures
        merge_pairs(s) == s,
        merge_score(s) == 0,
    decreases s.len(),
{
    if s.len() < 2 {
    } else if s[0] == s[1] && s[0] < 0x8000_0000u32 {
        lemma_merge_pairs_props(s.skip(2));
        assert(false);
    } else {
        lemma_merge_pairs_len_eq(s.skip(1));
        assert(merge_pairs(s) =~= s);
    }
}

/// Compacting a line with no empty cell leaves it as it is.
pub proof fn lemma_nonzeros_all_nonzero(s: Seq<u32>)
    requires
        forall|i: int| 0 <= i < s.len() ==> #[trigger] s[i] != 0,
    ensures
        nonzeros(s) == s,
    decreases s.len(),
{
    if s.len() == 0 {
        assert(nonzeros(s) =~= s);
    } else {
        lemma_nonzeros_all_nonzero(s.skip(1));
        assert(nonzeros(s) =~= s);
    }
}

/// Compacting strips exactly the trailing padding.
pub proof fn lemma_nonzeros_of_padded(m: Seq<u32>, k: nat)
    requires
        forall|i: int| 0 <= i < m.len() ==> #[trigger] m[i] != 0,
    ensures
        nonzeros(m + zeros(k)) == m,
    decreases m.len() + k,
{
    let s = m + zeros(k);
    if m.len() == 0 {
        if k == 0 {
            assert(nonzeros(s) =~= m);
        } else {
            assert(s[0] == 0);
            assert(s.skip(1) =~= Seq::<u32>::empty() + zeros((k - 1) as nat));
            lemma_nonzeros_of_padded(Seq::empty(), (k - 1) as nat);
            assert(nonzeros(s) =~= m);
        }
    } else {
        assert(s[0] == m[0]);
        assert(s.skip(1) =~= m.skip(1) + zeros(k));
        lemma_nonzeros_of_padded(m.skip(1), k);
        assert(nonzeros(s) =~= seq![m[0]] + m.skip(1));
        assert(seq![m[0]] + m.skip(1) =~= m);
    }
}

/// Appending a cell at the far end of a line extends its compaction.
pub proof fn lemma_nonzeros_push(s: Seq<u32>, v: u32)
    ensures
        nonzeros(s.push(v)) == if v == 0 {
            nonzeros(s)
        } else {
            nonzeros(s).push(v)
        },
    decreases s.len(),
{
    let p = s.push(v);
    assert(p[s.len() as int] == v);
    if s.len() == 0 {
        assert(p[0] == v);
        assert(p.skip(1) =~= s);
        if v == 0 {
            assert(nonzeros(p) =~= nonzeros(s));
        } else {
            assert(nonzeros(p) =~= nonzeros(s).push(v));
        }
    } else {
        assert(p[0] == s[0]);
        assert(p.skip(1) =~= s.skip(1).push(v));
        lemma_nonzeros_push(s.skip(1), v);
        if s[0] == 0 {
        } else {
            if v == 0 {
                assert(nonzeros(p) =~= nonzeros(s));
            } else {
                assert(nonzeros(p) =~= nonzeros(s).push(v));
            }
        }
    }
}

/// A slid line has the length of its input, and holds only well-formed
/// tiles if the input did.
pub proof fn lemma_slide_props(s: Seq<u32>)
    ensures
        slide_spec(s).len() == s.len(),
        line_tiles_ok(s) ==> line_tiles_ok(slide_spec(s)),
{
    let t = nonzeros(s);
    let m = merge_pairs(t);
    lemma_nonzeros_props(s);
    lemma_merge_pairs_props(t);
    if line_tiles_ok(s) {
        assert forall|i: int| 0 <= i < slide_spec(s).len() implies tile_ok(
            #[trigger] slide_spec(s)[i],
        ) by {
            if i >= m.len() {
                assert(slide_spec(s)[i] == 0);
            }
        }
    }
}

/// A move that leaves the line unchanged gains no score.
pub proof fn lemma_unchanged_no_score(s: Seq<u32>)
    requires
        slide_spec(s) == s,
    ensures
        slide_score(s) == 0,
{
    let t = nonzeros(s);
    let m = merge_pairs(t);
    lemma_nonzeros_props(s);
    lemma_merge_pairs_props(t);
    lemma_nonzeros_of_padded(m, (s.len() - m.len()) as nat);
    assert(nonzeros(slide_spec(s)) == m);
    assert(t == m);
    lemma_merge_pairs_len_eq(t);
}

/// A move that changes the line leaves at least one empty cell in it.
pub proof fn lemma_changed_has_zero(s: Seq<u32>)
    requires
        s.len() == 4,
        slide_spec(s) != s,
    ensures
        exists|i: int| 0 <= i < 4 && #[trigger] slide_spec(s)[i] == 0,
{
    let t = nonzeros(s);
    let m = merge_pairs(t);
    lemma_nonzeros_props(s);
    lemma_merge_pairs_props(t);
    if m.len() < 4 {
        assert(slide_spec(s)[3] == 0);
    } else {
        // The line was full and nothing merged: it cannot have changed.
        assert(t.len() == 4);
        assert(forall|i: int| 0 <= i < s.len() ==> #[trigger] s[i] != 0) by {
            if exists|i: int| 0 <= i < s.len() && #[trigger] s[i] == 0 {
                let i = choose|i: int| 0 <= i < s.len() && #[trigger] s[i] == 0;
                lemma_nonzeros_skips_zero(s, i);
                assert(false);
            }
        }
        lemma_nonzeros_all_nonzero(s);
        lemma_merge_pairs_len_eq(t);
        assert(slide_spec(s) =~= s);
        assert(false);
    }
}

/// A line with an empty cell compacts to strictly fewer cells.
proof fn lemma_nonzeros_skips_zero(s: Seq<u32>, i: int)
    requires
        0 <= i < s.len(),
        s[i] == 0,
    ensures
        nonzeros(s).len() < s.len(),
    decreases s.len(),
{
    if s[0] == 0 {
        lemma_nonzeros_props(s.skip(1));
    } else {
        lemma_nonzeros_skips_zero(s.skip(1), i - 1);
    }
}

/// Slide and merge one line of four cells toward position 0.
///
/// Returns the new line, the score gained, and whether anything moved or
/// merged (equivalently: whether the line changed).
pub fn slide_line(line: &Vec<u32>) -> (res: (Vec<u32>, u64, bool))
    requires
        line@.len() == 4,
    ensures
        res.0@ == slide_spec(line@),
        res.0@.len() == 4,
        res.1 as int == slide_score(line@),
        res.1 <= 0x4_0000_0000,
        res.2 == (res.0@ != line@),
        line_tiles_ok(line@) ==> line_tiles_ok(res.0@),
{
    // Compaction: gather the non-empty cells in order.
    let mut t: Vec<u32> = Vec::new();
    let mut i: usize = 0;
    while i < 4
        invariant
            i <= 4,
            line@.len() == 4,
            t@ == nonzeros(line@.take(i as int)),
        decreases 4 - i,
    {
        proof {
            assert(line@.take(i + 1 as int) =~= line@.take(i as int).push(line@[i as int]));
            lemma_nonzeros_push(line@.take(i as int), line@[i as int]);
        }
        if line[i] != 0 {
            t.push(line[i]);
        }
        i = i + 1;
    }
    proof {
        assert(line@.take(4) =~= line@);
        lemma_nonzeros_props(line@);
    }

    // Merge equal adjacent pairs, earliest first, each cell at most once.
    let ghost tv = t@;
    let mut out: Vec<u32> = Vec::new();
    let mut delta: u64 = 0;
    let mut j: usize = 0;
    proof {
        assert(tv.skip(0) =~= tv);
        assert(Seq::<u32>::empty() + merge_pairs(tv) =~= merge_pairs(tv));
    }
    while j < t.len()
        invariant
            j <= t.len(),
            t@ == tv,
            tv.len() <= 4,
            out@.len() <= j,
            merge_pairs(tv) == out@ + merge_pairs(tv.skip(j as int)),
            merge_score(tv) == delta + merge_score(tv.skip(j as int)),
            delta <= j * 0x1_0000_0000,
        decreases t.len() - j,
    {
        let ghost rest = tv.skip(j as int);
        if j + 1 < t.len() && t[j] == t[j + 1] && t[j] < 0x8000_0000 {
            proof {
                assert(rest[0] == tv[j as int] && rest[1] == tv[j + 1]);
                assert(rest.skip(2) =~= tv.skip(j + 2));
                assert(out@ + merge_pairs(rest) =~= out@.push((rest[0] + rest[1]) as u32)
                    + merge_pairs(tv.skip(j + 2)));
            }
            let merged = t[j] + t[j + 1];
            out.push(merged);
            delta = delta + merged as u64;
            j = j + 2;
        } else {
            proof {
                assert(rest[0] == tv[j as int]);
                if rest.len() >= 2 {
                    assert(rest.skip(1) =~= tv.skip(j + 1));
                } else {
                    assert(rest.skip(1) =~= tv.skip(j + 1));
                }
                assert(out@ + merge_pairs(rest) =~= out@.push(rest[0]) + merge_pairs(
                    tv.skip(j + 1),
                ));
            }
            out.push(t[j]);
            j = j + 1;
        }
    }
    proof {
        assert(tv.skip(tv.len() as int) =~= Seq::<u32>::empty());
        assert(out@ =~= merge_pairs(tv));
        assert(forall|i: int| 0 <= i < tv.len() ==> #[trigger] tv[i] != 0);
        lemma_merge_pairs_props(tv);
    }

    // Pad with empty cells up to the full line length.
    let ghost mv = out@;
    proof {
        assert(out@ =~= mv + zeros(0));
    }
    while out.len() < 4
        invariant
            mv == merge_pairs(tv),
            mv.len() <= out@.len() <= 4,
            out@ == mv + zeros((out@.len() - mv.len()) as nat),
        decreases 4 - out.len(),
    {
        proof {
            assert(out@.push(0u32) =~= mv + zeros((out@.len() + 1 - mv.len()) as nat));
        }
        out.push(0);
    }
    proof {
        assert(out@ == slide_spec(line@));
    }

    // The move changed the board exactly when some cell differs.
    let mut eq = true;
    let mut k: usize = 0;
    while k < 4
        invariant
            k <= 4,
            line@.len() == 4,
            out@.len() == 4,
            eq == (forall|m: int| 0 <= m < k ==> out@[m] == line@[m]),
        decreases 4 - k,
    {
        if out[k] != line[k] {
            eq = false;
        }
        k = k + 1;
    }
    proof {
        if eq {
            assert(out@ =~= line@);
        }
        if line_tiles_ok(line@) {
            lemma_merge_pairs_props(tv);
            assert forall|i: int| 0 <= i < 4 implies tile_ok(#[trigger] slide_spec(line@)[i]) by {
                if i < mv.len() {
                } else {
                    assert(slide_spec(line@)[i] == 0);
                }
            }
        }
    }
    (out, delta, !eq)
}

} // verus!
