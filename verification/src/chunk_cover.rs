//! No character of the text that is not whitespace is lost: each one is
//! taken, at its own position, into some chunk.
use vstd::prelude::*;

use crate::chunk_order::{
    embeds, lemma_flatten_subrange, lemma_merge_windows, lemma_offset_le, lemma_offset_step,
    nonempty_parts, offset, window_covers, windows_ok,
};
use crate::recursive_character_text_splitter::{
    choose_separator, fold_splits, lemma_choose_from_shorter, lemma_split_pieces_flatten,
    merge_spec, split_chunks, split_pieces,
};
use crate::text::{all_white, byte_len, flatten, is_white_space, lemma_flatten_push};

verus! {

// ---------------------------------------------------------------------------
// Chunks placed in the text
// ---------------------------------------------------------------------------

/// `embs` places each chunk in the text: chunk `k` has its characters at the
/// strictly increasing positions `embs[k]`.
pub open spec fn placed(chunks: Seq<Seq<char>>, text: Seq<char>, embs: Seq<Seq<int>>) -> bool {
    &&& embs.len() == chunks.len()
    &&& forall|k: int| 0 <= k < chunks.len() ==> embeds(chunks[k], text, #[trigger] embs[k])
}

/// Position `p` of the text is taken into one of the placed chunks.
pub open spec fn covered(embs: Seq<Seq<int>>, p: int) -> bool {
    exists|k: int, t: int| 0 <= k < embs.len() && 0 <= t < embs[k].len() && #[trigger] embs[k][t] == p
}

/// Every character of `text` that is not whitespace is taken, at its own
/// position, into some chunk.
pub open spec fn covers_text(chunks: Seq<Seq<char>>, text: Seq<char>) -> bool {
    exists|embs: Seq<Seq<int>>|
        placed(chunks, text, embs) && forall|p: int|
            0 <= p < text.len() && !is_white_space(#[trigger] text[p]) ==> covered(embs, p)
}

/// The placed chunks come one after another: every position of an earlier
/// chunk lies before every position of a later one, so no position is taken
/// twice.
pub open spec fn apart(embs: Seq<Seq<int>>) -> bool {
    forall|k: int, l: int, t: int, u: int|
        0 <= k < l < embs.len() && 0 <= t < embs[k].len() && 0 <= u < embs[l].len() ==> #[trigger] embs[k][t]
            < #[trigger] embs[l][u]
}

/// Every placed position is before `f`.
pub open spec fn below(embs: Seq<Seq<int>>, f: int) -> bool {
    forall|k: int, t: int| 0 <= k < embs.len() && 0 <= t < embs[k].len() ==> #[trigger] embs[k][t] < f
}

/// Every placed position is at or after `f`.
pub open spec fn above(embs: Seq<Seq<int>>, f: int) -> bool {
    forall|k: int, t: int| 0 <= k < embs.len() && 0 <= t < embs[k].len() ==> f <= #[trigger] embs[k][t]
}

/// With no overlap, every character of `text` that is not whitespace is
/// taken into some chunk, and the chunks are placed one after another, so
/// that no position is taken twice.
pub open spec fn covers_text_in_turn(chunks: Seq<Seq<char>>, text: Seq<char>) -> bool {
    exists|embs: Seq<Seq<int>>|
        placed(chunks, text, embs) && apart(embs) && forall|p: int|
            0 <= p < text.len() && !is_white_space(#[trigger] text[p]) ==> covered(embs, p)
}

proof fn lemma_apart_concat(e1: Seq<Seq<int>>, e2: Seq<Seq<int>>, f: int, g: int)
    requires
        apart(e1),
        apart(e2),
        below(e1, f),
        above(e2, f),
        below(e2, g),
        f <= g,
    ensures
        apart(e1 + e2),
        below(e1 + e2, g),
{
    let e = e1 + e2;
    assert forall|k: int, l: int, t: int, u: int|
        0 <= k < l < e.len() && 0 <= t < e[k].len() && 0 <= u < e[l].len() implies #[trigger] e[k][t]
        < #[trigger] e[l][u] by {
        if l < e1.len() {
            assert(e[k] == e1[k]);
            assert(e[l] == e1[l]);
        } else if k < e1.len() {
            assert(e[k] == e1[k]);
            assert(e[l] == e2[l - e1.len()]);
        } else {
            assert(e[k] == e2[k - e1.len()]);
            assert(e[l] == e2[l - e1.len()]);
        }
    }
    assert forall|k: int, t: int| 0 <= k < e.len() && 0 <= t < e[k].len() implies #[trigger] e[k][t]
        < g by {
        if k < e1.len() {
            assert(e[k] == e1[k]);
        } else {
            assert(e[k] == e2[k - e1.len()]);
        }
    }
}

proof fn lemma_covered_concat(e1: Seq<Seq<int>>, e2: Seq<Seq<int>>, p: int)
    requires
        covered(e1, p) || covered(e2, p),
    ensures
        covered(e1 + e2, p),
{
    let e = e1 + e2;
    if covered(e1, p) {
        let (k, t) = choose|k: int, t: int|
            0 <= k < e1.len() && 0 <= t < e1[k].len() && #[trigger] e1[k][t] == p;
        assert(e[k] == e1[k]);
        assert(e[k][t] == p);
    } else {
        let (k, t) = choose|k: int, t: int|
            0 <= k < e2.len() && 0 <= t < e2[k].len() && #[trigger] e2[k][t] == p;
        assert(e[k + e1.len()] == e2[k]);
        assert(e[k + e1.len()][t] == p);
    }
}

proof fn lemma_placed_concat(
    a: Seq<Seq<char>>,
    ea: Seq<Seq<int>>,
    b: Seq<Seq<char>>,
    eb: Seq<Seq<int>>,
    text: Seq<char>,
)
    requires
        placed(a, text, ea),
        placed(b, text, eb),
    ensures
        placed(a + b, text, ea + eb),
{
    let c = a + b;
    let e = ea + eb;
    assert forall|k: int| 0 <= k < c.len() implies embeds(c[k], text, #[trigger] e[k]) by {
        if k < a.len() {
            assert(c[k] == a[k]);
            assert(e[k] == ea[k]);
        } else {
            assert(c[k] == b[k - a.len()]);
            assert(e[k] == eb[k - a.len()]);
        }
    }
}

/// The positions `lo .. lo + len`.
pub open spec fn run(lo: int, len: nat) -> Seq<int> {
    Seq::new(len, |u: int| lo + u)
}

/// Piece `g` sits at its offset in the concatenation.
proof fn lemma_piece_embeds(pieces: Seq<Seq<char>>, g: int)
    requires
        0 <= g < pieces.len(),
    ensures
        embeds(pieces[g], flatten(pieces), run(offset(pieces, g), pieces[g].len())),
        offset(pieces, g + 1) == offset(pieces, g) + pieces[g].len(),
        offset(pieces, g + 1) <= flatten(pieces).len(),
{
    lemma_flatten_subrange(pieces, g, g + 1);
    lemma_offset_step(pieces, g);
    lemma_offset_le(pieces, g + 1, pieces.len() as int);
    let sub = pieces.subrange(g, g + 1);
    assert(sub =~= seq![pieces[g]]);
    assert(sub.drop_last() =~= Seq::<Seq<char>>::empty());
    assert(flatten(Seq::<Seq<char>>::empty()) =~= Seq::<char>::empty());
    assert(flatten(sub) =~= pieces[g]);
    let idx = run(offset(pieces, g), pieces[g].len());
    let text = flatten(pieces);
    assert forall|u: int| 0 <= u < idx.len() implies 0 <= #[trigger] idx[u] < text.len()
        && text[idx[u]] == pieces[g][u] by {
        assert(text.subrange(offset(pieces, g), offset(pieces, g + 1))[u] == text[idx[u]]);
    }
}

/// Two placements in one text, the first wholly before the second, place
/// the concatenation.
proof fn lemma_embeds_append(x: Seq<char>, ix: Seq<int>, y: Seq<char>, iy: Seq<int>, text: Seq<char>, mid: int)
    requires
        embeds(x, text, ix),
        embeds(y, text, iy),
        forall|m: int| 0 <= m < ix.len() ==> #[trigger] ix[m] < mid,
        forall|m: int| 0 <= m < iy.len() ==> mid <= #[trigger] iy[m],
    ensures
        embeds(x + y, text, ix + iy),
{
    let i = ix + iy;
    let c = x + y;
    assert forall|m: int| 0 <= m < i.len() implies 0 <= #[trigger] i[m] < text.len() && text[i[m]]
        == c[m] by {
        if m < ix.len() {
            assert(i[m] == ix[m]);
        } else {
            assert(i[m] == iy[m - ix.len()]);
        }
    }
    assert forall|m: int, n: int| 0 <= m < n < i.len() implies #[trigger] i[m] < #[trigger] i[n] by {
        if n < ix.len() {
            assert(i[m] == ix[m]);
            assert(i[n] == ix[n]);
        } else if m < ix.len() {
            assert(i[m] == ix[m]);
            assert(i[n] == iy[n - ix.len()]);
        } else {
            assert(i[m] == iy[m - ix.len()]);
            assert(i[n] == iy[n - ix.len()]);
        }
    }
}

/// Position `p` is one of `positions`.
pub open spec fn takes(positions: Seq<int>, p: int) -> bool {
    exists|m: int| 0 <= m < positions.len() && positions[m] == p
}

/// Position `p` lies in one of the pieces `gidx[a..b]`.
pub open spec fn in_pieces(pieces: Seq<Seq<char>>, gidx: Seq<int>, a: int, b: int, p: int) -> bool {
    exists|t: int|
        a <= t < b && offset(pieces, #[trigger] gidx[t]) <= p < offset(pieces, gidx[t] + 1)
}

/// The positions of the pieces `gidx[a..b]`, one run per piece.
pub open spec fn window_positions(pieces: Seq<Seq<char>>, gidx: Seq<int>, a: int, b: int) -> Seq<int>
    decreases b - a,
{
    if b <= a {
        Seq::empty()
    } else {
        window_positions(pieces, gidx, a, b - 1) + run(
            offset(pieces, gidx[b - 1]),
            pieces[gidx[b - 1]].len(),
        )
    }
}

/// A window of waiting splits, taken at increasing piece indices, is placed
/// at the positions of its pieces, and these positions take in every
/// character of each of its pieces.
proof fn lemma_window_positions(
    pieces: Seq<Seq<char>>,
    good: Seq<Seq<char>>,
    gidx: Seq<int>,
    a: int,
    b: int,
)
    requires
        embeds(good, pieces, gidx),
        0 <= a <= b <= good.len(),
    ensures
        embeds(flatten(good.subrange(a, b)), flatten(pieces), window_positions(pieces, gidx, a, b)),
        a < b ==> forall|m: int|
            0 <= m < window_positions(pieces, gidx, a, b).len() ==> #[trigger] window_positions(
                pieces,
                gidx,
                a,
                b,
            )[m] < offset(pieces, gidx[b - 1] + 1) && offset(pieces, gidx[a])
                <= window_positions(pieces, gidx, a, b)[m],
        forall|p: int|
            #[trigger] in_pieces(pieces, gidx, a, b, p) ==> takes(
                window_positions(pieces, gidx, a, b),
                p,
            ),
    decreases b - a,
{
    let text = flatten(pieces);
    let wp = window_positions(pieces, gidx, a, b);
    if b <= a {
        assert(good.subrange(a, b) =~= Seq::<Seq<char>>::empty());
        assert(flatten(Seq::<Seq<char>>::empty()) =~= Seq::<char>::empty());
    } else {
        let g = gidx[b - 1];
        lemma_window_positions(pieces, good, gidx, a, b - 1);
        lemma_piece_embeds(pieces, g);
        let prev = window_positions(pieces, gidx, a, b - 1);
        let last = run(offset(pieces, g), pieces[g].len());
        assert(good.subrange(a, b) =~= good.subrange(a, b - 1).push(good[b - 1]));
        lemma_flatten_push(good.subrange(a, b - 1), good[b - 1]);
        assert(good[b - 1] == pieces[g]);
        if a < b - 1 {
            assert(gidx[b - 2] < gidx[b - 1]);
            lemma_offset_le(pieces, gidx[b - 2] + 1, g);
        }
        assert forall|m: int| 0 <= m < last.len() implies offset(pieces, g) <= #[trigger] last[m] by {}
        lemma_embeds_append(
            flatten(good.subrange(a, b - 1)),
            prev,
            good[b - 1],
            last,
            text,
            offset(pieces, g),
        );
        assert(wp == prev + last);
        if a < b - 1 {
            assert(gidx[a] < gidx[b - 1]);
        }
        lemma_offset_le(pieces, gidx[a], g);
        assert forall|m: int| 0 <= m < wp.len() implies #[trigger] wp[m] < offset(pieces, g + 1)
            && offset(pieces, gidx[a]) <= wp[m] by {
            if m < prev.len() {
                assert(wp[m] == prev[m]);
            } else {
                assert(wp[m] == last[m - prev.len()]);
            }
        }
        assert forall|p: int| #[trigger] in_pieces(pieces, gidx, a, b, p) implies takes(wp, p) by {
            let t = choose|t: int|
                a <= t < b && offset(pieces, #[trigger] gidx[t]) <= p < offset(pieces, gidx[t] + 1);
            if t < b - 1 {
                assert(in_pieces(pieces, gidx, a, b - 1, p));
                let m = choose|m: int| 0 <= m < prev.len() && prev[m] == p;
                assert(wp[m] == prev[m]);
            } else {
                let u = p - offset(pieces, g);
                assert(wp[prev.len() + u] == last[u]);
            }
        }
    }
}

// ---------------------------------------------------------------------------
// The recursive split takes in every character that is not whitespace
// ---------------------------------------------------------------------------

proof fn lemma_flush_cover(
    pieces: Seq<Seq<char>>,
    j: int,
    finals: Seq<Seq<char>>,
    good: Seq<Seq<char>>,
    gidx: Seq<int>,
    embs: Seq<Seq<int>>,
    cs: nat,
    ov: nat,
    front: int,
) -> (r: Seq<Seq<int>>)
    requires
        0 <= j <= pieces.len(),
        nonempty_parts(pieces),
        placed(finals, flatten(pieces), embs),
        embeds(good, pieces, gidx),
        forall|t: int| 0 <= t < gidx.len() ==> #[trigger] gidx[t] < j && front <= offset(pieces, gidx[t]),
        front <= offset(pieces, j),
        ov == 0 ==> apart(embs) && below(embs, front),
    ensures
        ov == 0 ==> apart(r) && below(r, offset(pieces, j)),
        placed(
            if good.len() > 0 {
                finals + merge_spec(good, Seq::empty(), cs, ov)
            } else {
                finals
            },
            flatten(pieces),
            r,
        ),
        forall|p: int|
            covered(embs, p) || in_pieces(pieces, gidx, 0, gidx.len() as int, p) ==> #[trigger] covered(
                r,
                p,
            ),
{
    let text = flatten(pieces);
    if good.len() == 0 {
        if ov == 0 {
            assert forall|k: int, t: int| 0 <= k < embs.len() && 0 <= t < embs[k].len() implies #[trigger] embs[k][t]
                < offset(pieces, j) by {}
        }
        embs
    } else {
        let e: Seq<Seq<char>> = Seq::empty();
        let m = merge_spec(good, Seq::empty(), cs, ov);
        assert(good.subrange(0, 0) =~= e);
        let w = lemma_merge_windows(good, 0, e, e, 0, Seq::empty(), cs, ov);
        let me = Seq::new(w.len(), |k: int| window_positions(pieces, gidx, w[k].0, w[k].1));
        assert forall|k: int| 0 <= k < m.len() implies embeds(m[k], text, #[trigger] me[k]) by {
            assert(0 <= w[k].0 < w[k].1 <= good.len());
            lemma_window_positions(pieces, good, gidx, w[k].0, w[k].1);
        }
        lemma_placed_concat(finals, embs, m, me, text);
        let r = embs + me;
        if ov == 0 {
            assert(nonempty_parts(good)) by {
                assert forall|k: int| 0 <= k < good.len() implies (#[trigger] good[k]).len() > 0 by {
                    assert(good[k] == pieces[gidx[k]]);
                }
            }
            assert forall|k: int, t: int| 0 <= k < me.len() && 0 <= t < me[k].len() implies front
                <= #[trigger] me[k][t] && me[k][t] < offset(pieces, j) by {
                assert(0 <= w[k].0 < w[k].1 <= good.len());
                lemma_window_positions(pieces, good, gidx, w[k].0, w[k].1);
                assert(me[k][t] == window_positions(pieces, gidx, w[k].0, w[k].1)[t]);
                assert(gidx[w[k].1 - 1] < j);
                lemma_offset_le(pieces, gidx[w[k].1 - 1] + 1, j);
                assert(front <= offset(pieces, gidx[w[k].0]));
            }
            assert forall|k: int, l: int, t: int, u: int|
                0 <= k < l < me.len() && 0 <= t < me[k].len() && 0 <= u < me[l].len() implies #[trigger] me[k][t]
                < #[trigger] me[l][u] by {
                assert(0 <= w[k].0 < w[k].1 <= good.len());
                assert(0 <= w[l].0 < w[l].1 <= good.len());
                assert(w[k].1 <= w[l].0);
                lemma_window_positions(pieces, good, gidx, w[k].0, w[k].1);
                lemma_window_positions(pieces, good, gidx, w[l].0, w[l].1);
                assert(me[k][t] == window_positions(pieces, gidx, w[k].0, w[k].1)[t]);
                assert(me[l][u] == window_positions(pieces, gidx, w[l].0, w[l].1)[u]);
                if w[k].1 - 1 < w[l].0 {
                    assert(gidx[w[k].1 - 1] < gidx[w[l].0]);
                }
                lemma_offset_le(pieces, gidx[w[k].1 - 1] + 1, gidx[w[l].0]);
            }
            lemma_apart_concat(embs, me, front, offset(pieces, j));
        }
        assert forall|p: int|
            covered(embs, p) || in_pieces(pieces, gidx, 0, gidx.len() as int, p) implies #[trigger] covered(
            r,
            p,
        ) by {
            if !covered(embs, p) {
                let t = choose|t: int|
                    0 <= t < gidx.len() && offset(pieces, #[trigger] gidx[t]) <= p < offset(
                        pieces,
                        gidx[t] + 1,
                    );
                assert(window_covers(w, t));
                let k = choose|k: int| 0 <= k < w.len() && (#[trigger] w[k]).0 <= t < w[k].1;
                assert(0 <= w[k].0 < w[k].1 <= good.len());
                lemma_window_positions(pieces, good, gidx, w[k].0, w[k].1);
                assert(in_pieces(pieces, gidx, w[k].0, w[k].1, p));
                let mm = choose|mm: int| 0 <= mm < me[k].len() && me[k][mm] == p;
                assert(me[k][mm] == p);
                assert(covered(me, p));
            }
            lemma_covered_concat(embs, me, p);
        }
        r
    }
}

proof fn lemma_fold_cover(
    pieces: Seq<Seq<char>>,
    j: int,
    finals: Seq<Seq<char>>,
    good: Seq<Seq<char>>,
    gidx: Seq<int>,
    next: Seq<Seq<char>>,
    cs: nat,
    ov: nat,
    embs: Seq<Seq<int>>,
    front: int,
) -> (r: Seq<Seq<int>>)
    requires
        0 <= j <= pieces.len(),
        nonempty_parts(pieces),
        placed(finals, flatten(pieces), embs),
        embeds(good, pieces, gidx),
        forall|t: int| 0 <= t < gidx.len() ==> #[trigger] gidx[t] < j && front <= offset(pieces, gidx[t]),
        0 <= front <= offset(pieces, j),
        ov == 0 ==> apart(embs) && below(embs, front),
        forall|p: int|
            0 <= p < offset(pieces, j) && !is_white_space(#[trigger] flatten(pieces)[p]) ==> covered(
                embs,
                p,
            ) || in_pieces(pieces, gidx, 0, gidx.len() as int, p),
    ensures
        placed(fold_splits(pieces, j, finals, good, next, cs, ov), flatten(pieces), r),
        ov == 0 ==> apart(r),
        forall|p: int|
            0 <= p < flatten(pieces).len() && !is_white_space(#[trigger] flatten(pieces)[p])
                ==> covered(r, p),
    decreases
            (if next.len() == 0 {
                0
            } else {
                next.len() + 1
            }),
            0int,
            pieces.len() - j,
{
    let text = flatten(pieces);
    let fr = lemma_flush_cover(pieces, j, finals, good, gidx, embs, cs, ov, front);
    let flushed = if good.len() > 0 {
        finals + merge_spec(good, Seq::empty(), cs, ov)
    } else {
        finals
    };
    lemma_offset_le(pieces, j, pieces.len() as int);
    if j >= pieces.len() {
        assert(fold_splits(pieces, j, finals, good, next, cs, ov) == flushed);
        assert forall|p: int|
            0 <= p < text.len() && !is_white_space(#[trigger] text[p]) implies covered(fr, p) by {
            assert(covered(embs, p) || in_pieces(pieces, gidx, 0, gidx.len() as int, p));
        }
        fr
    } else {
        let s = pieces[j];
        let oj = offset(pieces, j);
        lemma_piece_embeds(pieces, j);
        let oj1 = offset(pieces, j + 1);
        let e: Seq<Seq<char>> = Seq::empty();
        let ei: Seq<int> = Seq::empty();
        let ee: Seq<Seq<int>> = Seq::empty();
        if all_white(s) {
            assert forall|p: int|
                0 <= p < oj1 && !is_white_space(#[trigger] text[p]) implies covered(embs, p)
                || in_pieces(pieces, gidx, 0, gidx.len() as int, p) by {
                if p >= oj {
                    assert(run(oj, s.len())[p - oj] == p);
                    assert(text[p] == s[p - oj]);
                }
            }
            assert(fold_splits(pieces, j, finals, good, next, cs, ov) == fold_splits(
                pieces,
                j + 1,
                finals,
                good,
                next,
                cs,
                ov,
            ));
            lemma_offset_le(pieces, j, j + 1);
            lemma_fold_cover(pieces, j + 1, finals, good, gidx, next, cs, ov, embs, front)
        } else if byte_len(s) < cs {
            let g2 = good.push(s);
            let i2 = gidx.push(j);
            assert(embeds(g2, pieces, i2)) by {
                assert forall|t: int| 0 <= t < i2.len() implies 0 <= #[trigger] i2[t] < pieces.len()
                    && pieces[i2[t]] == g2[t] by {
                    if t < gidx.len() {
                        assert(i2[t] == gidx[t]);
                    }
                }
                assert forall|t: int, u: int| 0 <= t < u < i2.len() implies #[trigger] i2[t]
                    < #[trigger] i2[u] by {
                    assert(i2[t] == gidx[t]);
                    if u < gidx.len() {
                        assert(i2[u] == gidx[u]);
                    }
                }
            }
            assert forall|t: int| 0 <= t < i2.len() implies #[trigger] i2[t] < j + 1 && front
                <= offset(pieces, i2[t]) by {
                if t < gidx.len() {
                    assert(i2[t] == gidx[t]);
                }
            }
            lemma_offset_le(pieces, j, j + 1);
            assert forall|p: int|
                0 <= p < oj1 && !is_white_space(#[trigger] text[p]) implies covered(embs, p)
                || in_pieces(pieces, i2, 0, i2.len() as int, p) by {
                if p >= oj {
                    assert(i2[gidx.len() as int] == j);
                    assert(in_pieces(pieces, i2, 0, i2.len() as int, p));
                } else if !covered(embs, p) {
                    assert(in_pieces(pieces, gidx, 0, gidx.len() as int, p));
                    let t = choose|t: int|
                        0 <= t < gidx.len() && offset(pieces, #[trigger] gidx[t]) <= p < offset(
                            pieces,
                            gidx[t] + 1,
                        );
                    assert(i2[t] == gidx[t]);
                    assert(in_pieces(pieces, i2, 0, i2.len() as int, p));
                }
            }
            assert(fold_splits(pieces, j, finals, good, next, cs, ov) == fold_splits(
                pieces,
                j + 1,
                finals,
                g2,
                next,
                cs,
                ov,
            ));
            lemma_fold_cover(pieces, j + 1, finals, g2, i2, next, cs, ov, embs, front)
        } else if next.len() == 0 {
            let one = seq![s];
            let eo = seq![run(oj, s.len())];
            assert(placed(one, text, eo));
            lemma_placed_concat(flushed, fr, one, eo, text);
            assert(flushed.push(s) =~= flushed + one);
            let f2 = fr + eo;
            if ov == 0 {
                assert forall|k: int, t: int| 0 <= k < eo.len() && 0 <= t < eo[k].len() implies oj
                    <= #[trigger] eo[k][t] && eo[k][t] < oj1 by {
                    assert(eo[k][t] == oj + t);
                }
                lemma_apart_concat(fr, eo, oj, oj1);
            }
            assert forall|p: int|
                0 <= p < oj1 && !is_white_space(#[trigger] text[p]) implies covered(f2, p)
                || in_pieces(pieces, ei, 0, ei.len() as int, p) by {
                if p >= oj {
                    assert(eo[0][p - oj] == p);
                    assert(covered(eo, p));
                } else {
                    assert(covered(embs, p) || in_pieces(pieces, gidx, 0, gidx.len() as int, p));
                    assert(covered(fr, p));
                }
                lemma_covered_concat(fr, eo, p);
            }
            assert(fold_splits(pieces, j, finals, good, next, cs, ov) == fold_splits(
                pieces,
                j + 1,
                flushed.push(s),
                e,
                next,
                cs,
                ov,
            ));
            lemma_fold_cover(pieces, j + 1, flushed.push(s), e, ei, next, cs, ov, f2, oj1)
        } else {
            let sub = split_chunks(s, next, cs, ov);
            let rs = lemma_chunks_cover_all(s, next, cs, ov);
            let sh = rs.map_values(|q: Seq<int>| q.map_values(|x: int| x + oj));
            assert forall|k: int| 0 <= k < sub.len() implies embeds(sub[k], text, #[trigger] sh[k]) by {
                assert(embeds(sub[k], s, rs[k]));
                let q = rs[k];
                assert forall|m: int| 0 <= m < sh[k].len() implies 0 <= #[trigger] sh[k][m]
                    < text.len() && text[sh[k][m]] == sub[k][m] by {
                    assert(sh[k][m] == q[m] + oj);
                    assert(run(oj, s.len())[q[m]] == q[m] + oj);
                }
                assert forall|m: int, n: int| 0 <= m < n < sh[k].len() implies #[trigger] sh[k][m]
                    < #[trigger] sh[k][n] by {
                    assert(q[m] < q[n]);
                }
            }
            assert(placed(sub, text, sh));
            lemma_placed_concat(flushed, fr, sub, sh, text);
            let f2 = fr + sh;
            if ov == 0 {
                assert forall|k: int, t: int| 0 <= k < sh.len() && 0 <= t < sh[k].len() implies oj
                    <= #[trigger] sh[k][t] && sh[k][t] < oj1 by {
                    assert(embeds(sub[k], s, rs[k]));
                    assert(sh[k][t] == rs[k][t] + oj);
                }
                assert forall|k: int, l: int, t: int, u: int|
                    0 <= k < l < sh.len() && 0 <= t < sh[k].len() && 0 <= u < sh[l].len() implies #[trigger] sh[k][t]
                    < #[trigger] sh[l][u] by {
                    assert(sh[k][t] == rs[k][t] + oj);
                    assert(sh[l][u] == rs[l][u] + oj);
                    assert(rs[k][t] < rs[l][u]);
                }
                lemma_apart_concat(fr, sh, oj, oj1);
            }
            assert forall|p: int|
                0 <= p < oj1 && !is_white_space(#[trigger] text[p]) implies covered(f2, p)
                || in_pieces(pieces, ei, 0, ei.len() as int, p) by {
                if p >= oj {
                    let q = p - oj;
                    assert(run(oj, s.len())[q] == p);
                    assert(text[p] == s[q]);
                    assert(!is_white_space(s[q]));
                    assert(covered(rs, q));
                    let (k, t) = choose|k: int, t: int|
                        0 <= k < rs.len() && 0 <= t < rs[k].len() && #[trigger] rs[k][t] == q;
                    assert(sh[k][t] == p);
                    assert(covered(sh, p));
                } else {
                    assert(covered(embs, p) || in_pieces(pieces, gidx, 0, gidx.len() as int, p));
                    assert(covered(fr, p));
                }
                lemma_covered_concat(fr, sh, p);
            }
            assert(fold_splits(pieces, j, finals, good, next, cs, ov) == fold_splits(
                pieces,
                j + 1,
                flushed + sub,
                e,
                next,
                cs,
                ov,
            ));
            lemma_fold_cover(pieces, j + 1, flushed + sub, e, ei, next, cs, ov, f2, oj1)
        }
    }
}

proof fn lemma_chunks_cover_all(text: Seq<char>, seps: Seq<Seq<char>>, cs: nat, ov: nat) -> (r: Seq<
    Seq<int>,
>)
    ensures
        placed(split_chunks(text, seps, cs, ov), text, r),
        forall|p: int| 0 <= p < text.len() && !is_white_space(#[trigger] text[p]) ==> covered(r, p),
        ov == 0 ==> apart(r),
    decreases seps.len(), 1int, 0int,
{
    if text.len() == 0 {
        Seq::empty()
    } else {
        let chosen = choose_separator(text, seps);
        lemma_choose_from_shorter(text, seps, 0);
        let pieces = split_pieces(text, chosen.0);
        lemma_split_pieces_flatten(text, chosen.0);
        lemma_offset_le(pieces, 0, 0);
        let e: Seq<Seq<char>> = Seq::empty();
        assert(split_chunks(text, seps, cs, ov) == fold_splits(pieces, 0, e, e, chosen.1, cs, ov));
        lemma_fold_cover(pieces, 0, e, e, Seq::empty(), chosen.1, cs, ov, Seq::empty(), 0)
    }
}

/// No character that is not whitespace is lost: each one is taken, at its
/// own position in the text, into some chunk (chunk `k` sits at strictly
/// increasing positions of the text). With no overlap, the chunks are
/// moreover placed one after another, so that no character is repeated.
pub proof fn lemma_chunks_cover_text(text: Seq<char>, seps: Seq<Seq<char>>, cs: nat, ov: nat)
    ensures
        covers_text(split_chunks(text, seps, cs, ov), text),
        ov == 0 ==> covers_text_in_turn(split_chunks(text, seps, cs, ov), text),
{
    let r = lemma_chunks_cover_all(text, seps, cs, ov);
    assert(placed(split_chunks(text, seps, cs, ov), text, r));
}

} // verus!
