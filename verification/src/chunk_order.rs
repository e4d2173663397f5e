//! The chunks of the recursive splitter keep the order of the text: each
//! chunk is drawn from a stretch of the text, in order, and the stretches
//! move forward from one chunk to the next.
use vstd::prelude::*;

use crate::recursive_character_text_splitter::{
    choose_separator, fold_splits, join, lemma_choose_from_shorter, lemma_split_pieces_flatten,
    merge_from, merge_spec, shrink, split_chunks, split_pieces,
};
use crate::text::{all_white, byte_len, flatten, lemma_flatten_concat, lemma_flatten_push};

verus! {

// ---------------------------------------------------------------------------
// Subsequences
// ---------------------------------------------------------------------------

/// `idx` places the items of `a`, in order, at strictly increasing positions
/// of `b`.
pub open spec fn embeds<A>(a: Seq<A>, b: Seq<A>, idx: Seq<int>) -> bool {
    &&& idx.len() == a.len()
    &&& forall|i: int| 0 <= i < idx.len() ==> 0 <= #[trigger] idx[i] < b.len() && b[idx[i]] == a[i]
    &&& forall|i: int, j: int| 0 <= i < j < idx.len() ==> #[trigger] idx[i] < #[trigger] idx[j]
}

/// The items of `a` occur in `b` in the same order (not necessarily next to
/// each other).
pub open spec fn is_subsequence<A>(a: Seq<A>, b: Seq<A>) -> bool {
    exists|idx: Seq<int>| embeds(a, b, idx)
}

proof fn lemma_embed_self<A>(a: Seq<A>) -> (idx: Seq<int>)
    ensures
        embeds(a, a, idx),
{
    Seq::new(a.len(), |i: int| i)
}

proof fn lemma_embed_concat<A>(
    a1: Seq<A>,
    b1: Seq<A>,
    i1: Seq<int>,
    a2: Seq<A>,
    b2: Seq<A>,
    i2: Seq<int>,
) -> (idx: Seq<int>)
    requires
        embeds(a1, b1, i1),
        embeds(a2, b2, i2),
    ensures
        embeds(a1 + a2, b1 + b2, idx),
{
    let shifted = i2.map_values(|x: int| x + b1.len());
    let idx = i1 + shifted;
    let a = a1 + a2;
    let b = b1 + b2;
    assert forall|i: int| 0 <= i < idx.len() implies 0 <= #[trigger] idx[i] < b.len() && b[idx[i]]
        == a[i] by {
        if i < i1.len() {
            assert(idx[i] == i1[i]);
        } else {
            assert(idx[i] == i2[i - i1.len()] + b1.len());
        }
    }
    assert forall|i: int, j: int| 0 <= i < j < idx.len() implies #[trigger] idx[i]
        < #[trigger] idx[j] by {
        if j < i1.len() {
        } else if i < i1.len() {
            assert(idx[i] < b1.len());
            assert(idx[j] == i2[j - i1.len()] + b1.len());
        } else {
            assert(idx[i] == i2[i - i1.len()] + b1.len());
            assert(idx[j] == i2[j - i1.len()] + b1.len());
        }
    }
    idx
}

proof fn lemma_embed_trans<A>(a: Seq<A>, b: Seq<A>, i: Seq<int>, c: Seq<A>, j: Seq<int>) -> (idx:
    Seq<int>)
    requires
        embeds(a, b, i),
        embeds(b, c, j),
    ensures
        embeds(a, c, idx),
{
    let idx = i.map_values(|x: int| j[x]);
    assert forall|k: int| 0 <= k < idx.len() implies 0 <= #[trigger] idx[k] < c.len() && c[idx[k]]
        == a[k] by {
        assert(0 <= i[k] < b.len());
        assert(idx[k] == j[i[k]]);
    }
    assert forall|k: int, l: int| 0 <= k < l < idx.len() implies #[trigger] idx[k]
        < #[trigger] idx[l] by {
        assert(i[k] < i[l]);
        assert(idx[k] == j[i[k]]);
        assert(idx[l] == j[i[l]]);
    }
    idx
}

/// Concatenating the pieces keeps a subsequence of pieces a subsequence.
proof fn lemma_flatten_embeds(doc: Seq<Seq<char>>, pieces: Seq<Seq<char>>, idx: Seq<int>) -> (r:
    Seq<int>)
    requires
        embeds(doc, pieces, idx),
    ensures
        embeds(flatten(doc), flatten(pieces), r),
    decreases pieces.len(),
{
    if pieces.len() == 0 {
        assert(doc.len() == 0) by {
            if doc.len() > 0 {
                assert(0 <= idx[0] < pieces.len());
            }
        }
        assert(flatten(doc) =~= Seq::<char>::empty());
        Seq::empty()
    } else {
        let last = pieces.len() - 1;
        let pl = pieces.drop_last();
        if doc.len() > 0 && idx.last() == last {
            let dl = doc.drop_last();
            let il = idx.drop_last();
            assert forall|i: int| 0 <= i < il.len() implies 0 <= #[trigger] il[i] < pl.len()
                && pl[il[i]] == dl[i] by {
                assert(il[i] == idx[i]);
                assert(idx[i] < idx[idx.len() - 1]);
            }
            assert forall|i: int, j: int| 0 <= i < j < il.len() implies #[trigger] il[i]
                < #[trigger] il[j] by {
                assert(il[i] == idx[i]);
                assert(il[j] == idx[j]);
            }
            let r1 = lemma_flatten_embeds(dl, pl, il);
            let r2 = lemma_embed_self(pieces.last());
            assert(doc.last() == pieces.last());
            let r = lemma_embed_concat(flatten(dl), flatten(pl), r1, doc.last(), pieces.last(), r2);
            r
        } else {
            assert forall|i: int| 0 <= i < idx.len() implies 0 <= #[trigger] idx[i] < pl.len()
                && pl[idx[i]] == doc[i] by {
                if idx[i] == last {
                    assert(i < idx.len() - 1);
                    assert(idx[i] < idx[idx.len() - 1]);
                }
            }
            let r1 = lemma_flatten_embeds(doc, pl, idx);
            let e: Seq<char> = Seq::empty();
            let r2: Seq<int> = Seq::empty();
            let r = lemma_embed_concat(flatten(doc), flatten(pl), r1, e, pieces.last(), r2);
            assert(flatten(doc) + e =~= flatten(doc));
            r
        }
    }
}

// ---------------------------------------------------------------------------
// Merging: each chunk is a run of consecutive splits
// ---------------------------------------------------------------------------

/// Split `t` lies in one of the windows `w`.
pub open spec fn window_covers(w: Seq<(int, int)>, t: int) -> bool {
    exists|k: int| 0 <= k < w.len() && (#[trigger] w[k]).0 <= t < w[k].1
}

/// Each chunk is the concatenation of the splits in its window `[w.0, w.1)`,
/// no window is empty, and the windows move strictly forward.
pub open spec fn windows_ok(chunks: Seq<Seq<char>>, splits: Seq<Seq<char>>, w: Seq<(int, int)>) -> bool {
    &&& w.len() == chunks.len()
    &&& forall|k: int|
        0 <= k < w.len() ==> 0 <= (#[trigger] w[k]).0 < w[k].1 <= splits.len() && chunks[k]
            == flatten(splits.subrange(w[k].0, w[k].1))
    &&& forall|k: int, l: int|
        0 <= k < l < w.len() ==> (#[trigger] w[k]).0 < (#[trigger] w[l]).0 && w[k].1 < w[l].1
}

pub(crate) proof fn lemma_join_empty_sep(p: Seq<Seq<char>>)
    ensures
        join(p, Seq::empty()) == flatten(p),
    decreases p.len(),
{
    if p.len() == 1 {
        assert(p.drop_last() =~= Seq::<Seq<char>>::empty());
        assert(flatten(p.drop_last()) =~= Seq::<char>::empty());
        assert(flatten(p) =~= p[0]);
    } else if p.len() > 1 {
        lemma_join_empty_sep(p.drop_last());
        assert(join(p.drop_last(), Seq::empty()) + Seq::<char>::empty() =~= flatten(p.drop_last()));
    }
}

/// Where the window that `shrink` keeps starts; it drops at least one part
/// when the window and the pending bytes do not fit.
proof fn lemma_shrink_start(
    doc: Seq<Seq<char>>,
    sep: Seq<char>,
    pending: nat,
    cs: nat,
    ov: nat,
) -> (d: int)
    ensures
        0 <= d <= doc.len(),
        shrink(doc, sep, pending, cs, ov) == doc.subrange(d, doc.len() as int),
        doc.len() > 0 && byte_len(join(doc, sep)) + pending > cs ==> d >= 1,
        forall|x: int|
            0 <= x < d ==> byte_len(join(#[trigger] doc.subrange(x, doc.len() as int), sep)) > ov
                || byte_len(join(doc.subrange(x, doc.len() as int), sep)) + pending > cs,
        d < doc.len() ==> byte_len(join(doc.subrange(d, doc.len() as int), sep)) <= ov && byte_len(
            join(doc.subrange(d, doc.len() as int), sep),
        ) + pending <= cs,
    decreases doc.len(),
{
    if doc.len() > 0 && (byte_len(join(doc, sep)) > ov || byte_len(join(doc, sep)) + pending > cs) {
        let rest = doc.drop_first();
        let d = lemma_shrink_start(rest, sep, pending, cs, ov);
        assert(rest.subrange(d, rest.len() as int) =~= doc.subrange(d + 1, doc.len() as int));
        assert forall|x: int| 0 <= x < d + 1 implies byte_len(
            join(#[trigger] doc.subrange(x, doc.len() as int), sep),
        ) > ov || byte_len(join(doc.subrange(x, doc.len() as int), sep)) + pending > cs by {
            if x == 0 {
                assert(doc.subrange(0, doc.len() as int) =~= doc);
            } else {
                assert(rest.subrange(x - 1, rest.len() as int) =~= doc.subrange(x, doc.len() as int));
                assert(byte_len(join(rest.subrange(x - 1, rest.len() as int), sep)) > ov
                    || byte_len(join(rest.subrange(x - 1, rest.len() as int), sep)) + pending > cs);
            }
        }
        d + 1
    } else {
        assert(doc.subrange(0, doc.len() as int) =~= doc);
        0
    }
}

/// No part is empty.
pub open spec fn nonempty_parts(parts: Seq<Seq<char>>) -> bool {
    forall|k: int| 0 <= k < parts.len() ==> (#[trigger] parts[k]).len() > 0
}

/// With no overlap, shrinking drops every part of a window of non-empty
/// parts.
proof fn lemma_shrink_all(doc: Seq<Seq<char>>, sep: Seq<char>, pending: nat, cs: nat)
    requires
        forall|k: int| 0 <= k < doc.len() ==> (#[trigger] doc[k]).len() > 0,
    ensures
        shrink(doc, sep, pending, cs, 0).len() == 0,
    decreases doc.len(),
{
    if doc.len() > 0 {
        let last = doc[doc.len() - 1];
        assert(last.len() > 0);
        assert(byte_len(last) > 0);
        if doc.len() == 1 {
            assert(join(doc, sep) == doc[0]);
        } else {
            crate::text::lemma_byte_len_concat(join(doc.drop_last(), sep) + sep, last);
        }
        assert forall|k: int| 0 <= k < doc.drop_first().len() implies (#[trigger] doc.drop_first()[
            k
        ]).len() > 0 by {
            assert(doc.drop_first()[k] == doc[k + 1]);
        }
        lemma_shrink_all(doc.drop_first(), sep, pending, cs);
    }
}

pub(crate) proof fn lemma_merge_windows(
    splits: Seq<Seq<char>>,
    i: int,
    merged: Seq<Seq<char>>,
    doc: Seq<Seq<char>>,
    a: int,
    w: Seq<(int, int)>,
    cs: nat,
    ov: nat,
) -> (r: Seq<(int, int)>)
    requires
        0 <= a <= i <= splits.len(),
        doc == splits.subrange(a, i),
        windows_ok(merged, splits, w),
        forall|k: int| 0 <= k < w.len() ==> (#[trigger] w[k]).0 < a && w[k].1 < i,
        forall|t: int| 0 <= t < a ==> #[trigger] window_covers(w, t),
        ov == 0 && nonempty_parts(splits) ==> forall|k: int| 0 <= k < w.len() ==> (#[trigger] w[k]).1
            <= a,
        ov == 0 && nonempty_parts(splits) ==> forall|k: int, l: int|
            0 <= k < l < w.len() ==> (#[trigger] w[k]).1 <= (#[trigger] w[l]).0,
    ensures
        windows_ok(merge_from(splits, i, merged, doc, Seq::empty(), cs, ov), splits, r),
        forall|t: int| 0 <= t < splits.len() ==> #[trigger] window_covers(r, t),
        ov == 0 && nonempty_parts(splits) ==> forall|k: int, l: int|
            0 <= k < l < r.len() ==> (#[trigger] r[k]).1 <= (#[trigger] r[l]).0,
    decreases splits.len() - i,
{
    let sep: Seq<char> = Seq::empty();
    if i >= splits.len() {
        if doc.len() > 0 {
            lemma_join_empty_sep(doc);
            let w2 = w.push((a, i));
            let m2 = merged.push(join(doc, sep));
            assert(windows_ok(m2, splits, w2)) by {
                assert forall|k: int| 0 <= k < w2.len() implies 0 <= (#[trigger] w2[k]).0 < w2[k].1
                    <= splits.len() && m2[k] == flatten(splits.subrange(w2[k].0, w2[k].1)) by {
                    if k < w.len() {
                        assert(w2[k] == w[k]);
                        assert(m2[k] == merged[k]);
                    }
                }
                assert forall|k: int, l: int| 0 <= k < l < w2.len() implies (#[trigger] w2[k]).0
                    < (#[trigger] w2[l]).0 && w2[k].1 < w2[l].1 by {
                    assert(w2[k] == w[k]);
                    if l < w.len() {
                        assert(w2[l] == w[l]);
                    }
                }
            }
            assert forall|t: int| 0 <= t < splits.len() implies #[trigger] window_covers(w2, t) by {
                if t < a {
                    assert(window_covers(w, t));
                    let k = choose|k: int| 0 <= k < w.len() && (#[trigger] w[k]).0 <= t < w[k].1;
                    assert(w2[k] == w[k]);
                    assert(w2[k].0 <= t < w2[k].1);
                } else {
                    assert(w2[w.len() as int] == (a, i));
                    assert(w2[w.len() as int].0 <= t < w2[w.len() as int].1);
                }
            }
            assert(ov == 0 && nonempty_parts(splits) ==> forall|k: int, l: int|
                0 <= k < l < w2.len() ==> (#[trigger] w2[k]).1 <= (#[trigger] w2[l]).0) by {
                if ov == 0 && nonempty_parts(splits) {
                    assert forall|k: int, l: int| 0 <= k < l < w2.len() implies (#[trigger] w2[k]).1
                        <= (#[trigger] w2[l]).0 by {
                        assert(w2[k] == w[k]);
                        if l < w.len() {
                            assert(w2[l] == w[l]);
                        } else {
                            assert(w2[l] == (a, i));
                        }
                    }
                }
            }
            w2
        } else {
            assert(ov == 0 && nonempty_parts(splits) ==> forall|k: int, l: int|
                0 <= k < l < w.len() ==> (#[trigger] w[k]).1 <= (#[trigger] w[l]).0) by {
                if ov == 0 && nonempty_parts(splits) {
                    assert forall|k: int, l: int| 0 <= k < l < w.len() implies (#[trigger] w[k]).1
                        <= (#[trigger] w[l]).0 by {
                    }
                }
            }
            assert forall|t: int| 0 <= t < splits.len() implies #[trigger] window_covers(w, t) by {
                assert(t < a);
                assert(window_covers(w, t));
            }
            w
        }
    } else {
        let split = splits[i];
        let add: nat = if doc.len() == 0 {
            0
        } else {
            byte_len(sep)
        };
        if byte_len(join(doc, sep)) + add + byte_len(split) > cs && doc.len() > 0 {
            lemma_join_empty_sep(doc);
            let w2 = w.push((a, i));
            let m2 = merged.push(join(doc, sep));
            assert(windows_ok(m2, splits, w2)) by {
                assert forall|k: int| 0 <= k < w2.len() implies 0 <= (#[trigger] w2[k]).0 < w2[k].1
                    <= splits.len() && m2[k] == flatten(splits.subrange(w2[k].0, w2[k].1)) by {
                    if k < w.len() {
                        assert(w2[k] == w[k]);
                        assert(m2[k] == merged[k]);
                    }
                }
                assert forall|k: int, l: int| 0 <= k < l < w2.len() implies (#[trigger] w2[k]).0
                    < (#[trigger] w2[l]).0 && w2[k].1 < w2[l].1 by {
                    assert(w2[k] == w[k]);
                    if l < w.len() {
                        assert(w2[l] == w[l]);
                    }
                }
            }
            let pending = add + byte_len(split);
            let d = lemma_shrink_start(doc, sep, pending, cs, ov);
            if ov == 0 && nonempty_parts(splits) {
                assert forall|k: int| 0 <= k < doc.len() implies (#[trigger] doc[k]).len() > 0 by {
                    assert(doc[k] == splits[a + k]);
                }
                lemma_shrink_all(doc, sep, pending, cs);
                assert(doc.subrange(d, doc.len() as int).len() == 0);
                assert forall|k: int| 0 <= k < w2.len() implies (#[trigger] w2[k]).1 <= a + d by {
                    if k < w.len() {
                        assert(w2[k] == w[k]);
                    }
                }
                assert forall|k: int, l: int| 0 <= k < l < w2.len() implies (#[trigger] w2[k]).1
                    <= (#[trigger] w2[l]).0 by {
                    assert(w2[k] == w[k]);
                    if l < w.len() {
                        assert(w2[l] == w[l]);
                    } else {
                        assert(w2[l] == (a, i));
                    }
                }
            }
            let d2 = shrink(doc, sep, pending, cs, ov).push(split);
            assert(d2 =~= splits.subrange(a + d, i + 1));
            assert forall|t: int| 0 <= t < a + d implies #[trigger] window_covers(w2, t) by {
                if t < a {
                    assert(window_covers(w, t));
                    let k = choose|k: int| 0 <= k < w.len() && (#[trigger] w[k]).0 <= t < w[k].1;
                    assert(w2[k] == w[k]);
                    assert(w2[k].0 <= t < w2[k].1);
                } else {
                    assert(w2[w.len() as int] == (a, i));
                    assert(w2[w.len() as int].0 <= t < w2[w.len() as int].1);
                }
            }
            assert(merge_from(splits, i, merged, doc, sep, cs, ov) == merge_from(
                splits,
                i + 1,
                m2,
                d2,
                sep,
                cs,
                ov,
            ));
            lemma_merge_windows(splits, i + 1, m2, d2, a + d, w2, cs, ov)
        } else {
            let d2 = doc.push(split);
            assert(d2 =~= splits.subrange(a, i + 1));
            assert(merge_from(splits, i, merged, doc, sep, cs, ov) == merge_from(
                splits,
                i + 1,
                merged,
                d2,
                sep,
                cs,
                ov,
            ));
            lemma_merge_windows(splits, i + 1, merged, d2, a, w, cs, ov)
        }
    }
}

// ---------------------------------------------------------------------------
// Merging: how the windows are chosen
// ---------------------------------------------------------------------------

/// The bytes of the splits `x..y`.
pub open spec fn run_bytes(splits: Seq<Seq<char>>, x: int, y: int) -> nat {
    byte_len(flatten(splits.subrange(x, y)))
}

/// Where the window `k` started to grow: at the first split, or at the
/// split that did not fit in the window before it.
pub open spec fn grow_start(w: Seq<(int, int)>, k: int) -> int {
    if k == 0 {
        0
    } else {
        w[k - 1].1
    }
}

/// Every split added to the window after `g` still let it fit in `cs`
/// bytes.
pub open spec fn grew_ok(splits: Seq<Seq<char>>, win: (int, int), g: int, cs: nat) -> bool {
    forall|t: int| g < t < win.1 ==> #[trigger] run_bytes(splits, win.0, t + 1) <= cs
}

/// The window `cur` was emitted because the split just after it did not fit,
/// and the next window starts with the longest run of its last splits that
/// is at most `ov` bytes and that still fits in `cs` bytes with that split.
pub open spec fn next_window_ok(
    splits: Seq<Seq<char>>,
    cur: (int, int),
    next_start: int,
    cs: nat,
    ov: nat,
) -> bool {
    let b = cur.1;
    &&& b < splits.len()
    &&& run_bytes(splits, cur.0, b + 1) > cs
    &&& cur.0 <= next_start <= b
    &&& forall|d: int|
        cur.0 <= d < next_start ==> !(#[trigger] run_bytes(splits, d, b) <= ov && run_bytes(
            splits,
            d,
            b,
        ) + byte_len(splits[b]) <= cs)
    &&& next_start < b ==> run_bytes(splits, next_start, b) <= ov && run_bytes(splits, next_start, b)
        + byte_len(splits[b]) <= cs
}

/// The windows of merging `splits`: they start at the first split and end
/// at the last; each window grows while the next split fits in `cs` bytes
/// and is emitted when it does not; the next window then starts with the
/// longest run of the emitted window's last splits that is at most `ov`
/// bytes and fits in `cs` bytes with the split that did not fit.
pub open spec fn merge_shape(splits: Seq<Seq<char>>, w: Seq<(int, int)>, cs: nat, ov: nat) -> bool {
    &&& (splits.len() == 0 <==> w.len() == 0)
    &&& w.len() > 0 ==> w[0].0 == 0 && w[w.len() - 1].1 == splits.len()
    &&& forall|k: int|
        0 <= k < w.len() - 1 ==> #[trigger] next_window_ok(splits, w[k], w[k + 1].0, cs, ov)
    &&& forall|k: int| 0 <= k < w.len() ==> #[trigger] grew_ok(splits, w[k], grow_start(w, k), cs)
}

proof fn lemma_run_bytes_push(splits: Seq<Seq<char>>, a: int, i: int)
    requires
        0 <= a <= i < splits.len(),
    ensures
        run_bytes(splits, a, i + 1) == run_bytes(splits, a, i) + byte_len(splits[i]),
{
    assert(splits.subrange(a, i + 1) =~= splits.subrange(a, i).push(splits[i]));
    lemma_flatten_push(splits.subrange(a, i), splits[i]);
    crate::text::lemma_byte_len_concat(flatten(splits.subrange(a, i)), splits[i]);
}

proof fn lemma_merge_shape(
    splits: Seq<Seq<char>>,
    i: int,
    merged: Seq<Seq<char>>,
    doc: Seq<Seq<char>>,
    a: int,
    g: int,
    w: Seq<(int, int)>,
    cs: nat,
    ov: nat,
) -> (r: Seq<(int, int)>)
    requires
        0 <= a <= i <= splits.len(),
        doc == splits.subrange(a, i),
        windows_ok(merged, splits, w),
        forall|k: int| 0 <= k < w.len() ==> (#[trigger] w[k]).0 < a && w[k].1 < i,
        w.len() == 0 ==> a == 0 && g == 0,
        w.len() > 0 ==> w[0].0 == 0 && g == w[w.len() - 1].1 && a <= g < i && next_window_ok(
            splits,
            w[w.len() - 1],
            a,
            cs,
            ov,
        ),
        forall|k: int|
            0 <= k < w.len() - 1 ==> #[trigger] next_window_ok(splits, w[k], w[k + 1].0, cs, ov),
        forall|k: int| 0 <= k < w.len() ==> #[trigger] grew_ok(splits, w[k], grow_start(w, k), cs),
        forall|t: int| g < t < i ==> #[trigger] run_bytes(splits, a, t + 1) <= cs,
    ensures
        windows_ok(merge_from(splits, i, merged, doc, Seq::empty(), cs, ov), splits, r),
        merge_shape(splits, r, cs, ov),
    decreases splits.len() - i,
{
    let sep: Seq<char> = Seq::empty();
    lemma_join_empty_sep(doc);
    if i >= splits.len() {
        if doc.len() > 0 {
            let w2 = w.push((a, i));
            let m2 = merged.push(join(doc, sep));
            assert(windows_ok(m2, splits, w2)) by {
                assert forall|k: int| 0 <= k < w2.len() implies 0 <= (#[trigger] w2[k]).0 < w2[k].1
                    <= splits.len() && m2[k] == flatten(splits.subrange(w2[k].0, w2[k].1)) by {
                    if k < w.len() {
                        assert(w2[k] == w[k]);
                        assert(m2[k] == merged[k]);
                    }
                }
                assert forall|k: int, l: int| 0 <= k < l < w2.len() implies (#[trigger] w2[k]).0
                    < (#[trigger] w2[l]).0 && w2[k].1 < w2[l].1 by {
                    assert(w2[k] == w[k]);
                    if l < w.len() {
                        assert(w2[l] == w[l]);
                    }
                }
            }
            lemma_shape_push(splits, w, a, i, g, cs, ov);
            w2
        } else {
            assert(w.len() == 0);
            w
        }
    } else {
        let split = splits[i];
        assert(byte_len(sep) == 0);
        lemma_run_bytes_push(splits, a, i);
        if byte_len(join(doc, sep)) + 0 + byte_len(split) > cs && doc.len() > 0 {
            let w2 = w.push((a, i));
            let m2 = merged.push(join(doc, sep));
            assert(windows_ok(m2, splits, w2)) by {
                assert forall|k: int| 0 <= k < w2.len() implies 0 <= (#[trigger] w2[k]).0 < w2[k].1
                    <= splits.len() && m2[k] == flatten(splits.subrange(w2[k].0, w2[k].1)) by {
                    if k < w.len() {
                        assert(w2[k] == w[k]);
                        assert(m2[k] == merged[k]);
                    }
                }
                assert forall|k: int, l: int| 0 <= k < l < w2.len() implies (#[trigger] w2[k]).0
                    < (#[trigger] w2[l]).0 && w2[k].1 < w2[l].1 by {
                    assert(w2[k] == w[k]);
                    if l < w.len() {
                        assert(w2[l] == w[l]);
                    }
                }
            }
            let pending = byte_len(split);
            let d = lemma_shrink_start(doc, sep, pending, cs, ov);
            let d2 = shrink(doc, sep, pending, cs, ov).push(split);
            assert(d2 =~= splits.subrange(a + d, i + 1));
            lemma_shape_push(splits, w, a, i, g, cs, ov);
            assert(next_window_ok(splits, w2[w2.len() - 1], a + d, cs, ov)) by {
                assert(w2[w2.len() - 1] == (a, i));
                assert forall|x: int| a <= x < a + d implies !(#[trigger] run_bytes(splits, x, i)
                    <= ov && run_bytes(splits, x, i) + byte_len(splits[i]) <= cs) by {
                    assert(doc.subrange(x - a, doc.len() as int) =~= splits.subrange(x, i));
                    lemma_join_empty_sep(splits.subrange(x, i));
                }
                if a + d < i {
                    assert(doc.subrange(d, doc.len() as int) =~= splits.subrange(a + d, i));
                    lemma_join_empty_sep(splits.subrange(a + d, i));
                }
            }
            assert forall|k: int| 0 <= k < w2.len() implies (#[trigger] w2[k]).0 < a + d && w2[k].1
                < i + 1 by {
                if k < w.len() {
                    assert(w2[k] == w[k]);
                }
            }
            assert(merge_from(splits, i, merged, doc, sep, cs, ov) == merge_from(
                splits,
                i + 1,
                m2,
                d2,
                sep,
                cs,
                ov,
            ));
            lemma_merge_shape(splits, i + 1, m2, d2, a + d, i, w2, cs, ov)
        } else {
            let d2 = doc.push(split);
            assert(d2 =~= splits.subrange(a, i + 1));
            assert forall|t: int| g < t < i + 1 implies #[trigger] run_bytes(splits, a, t + 1) <= cs by {
                if t == i {
                    if doc.len() == 0 {
                        assert(w.len() == 0);
                    }
                }
            }
            assert(merge_from(splits, i, merged, doc, sep, cs, ov) == merge_from(
                splits,
                i + 1,
                merged,
                d2,
                sep,
                cs,
                ov,
            ));
            lemma_merge_shape(splits, i + 1, merged, d2, a, g, w, cs, ov)
        }
    }
}

/// Adding the window `(a, i)` keeps the shape of the finished windows.
proof fn lemma_shape_push(
    splits: Seq<Seq<char>>,
    w: Seq<(int, int)>,
    a: int,
    i: int,
    g: int,
    cs: nat,
    ov: nat,
)
    requires
        w.len() == 0 ==> a == 0 && g == 0,
        w.len() > 0 ==> w[0].0 == 0 && g == w[w.len() - 1].1 && next_window_ok(
            splits,
            w[w.len() - 1],
            a,
            cs,
            ov,
        ),
        forall|k: int|
            0 <= k < w.len() - 1 ==> #[trigger] next_window_ok(splits, w[k], w[k + 1].0, cs, ov),
        forall|k: int| 0 <= k < w.len() ==> #[trigger] grew_ok(splits, w[k], grow_start(w, k), cs),
        forall|t: int| g < t < i ==> #[trigger] run_bytes(splits, a, t + 1) <= cs,
    ensures
        w.push((a, i))[0].0 == 0,
        forall|k: int|
            0 <= k < w.push((a, i)).len() - 1 ==> #[trigger] next_window_ok(
                splits,
                w.push((a, i))[k],
                w.push((a, i))[k + 1].0,
                cs,
                ov,
            ),
        forall|k: int|
            0 <= k < w.push((a, i)).len() ==> #[trigger] grew_ok(
                splits,
                w.push((a, i))[k],
                grow_start(w.push((a, i)), k),
                cs,
            ),
{
    let w2 = w.push((a, i));
    assert forall|k: int| 0 <= k < w2.len() - 1 implies #[trigger] next_window_ok(
        splits,
        w2[k],
        w2[k + 1].0,
        cs,
        ov,
    ) by {
        assert(w2[k] == w[k]);
        if k + 1 < w.len() {
            assert(w2[k + 1] == w[k + 1]);
            assert(next_window_ok(splits, w[k], w[k + 1].0, cs, ov));
        } else {
            assert(w2[k + 1] == (a, i));
        }
    }
    assert forall|k: int| 0 <= k < w2.len() implies #[trigger] grew_ok(
        splits,
        w2[k],
        grow_start(w2, k),
        cs,
    ) by {
        if k < w.len() {
            assert(w2[k] == w[k]);
            if k > 0 {
                assert(w2[k - 1] == w[k - 1]);
            }
            assert(grew_ok(splits, w[k], grow_start(w, k), cs));
        } else {
            assert(w2[k] == (a, i));
            if k > 0 {
                assert(w2[k - 1] == w[k - 1]);
            }
            assert(grow_start(w2, k) == g);
        }
    }
}

/// How merging chooses its chunks: each chunk is the run of splits in its
/// window; the windows start at the first split and end at the last; a
/// window grows while the next split fits in `cs` bytes and is emitted when
/// it does not; the next window starts with the longest run of the emitted
/// window's last splits that is at most `ov` bytes and that fits in `cs`
/// bytes together with the split that did not fit.
pub proof fn lemma_merge_chooses_windows(splits: Seq<Seq<char>>, cs: nat, ov: nat)
    ensures
        exists|w: Seq<(int, int)>|
            windows_ok(merge_spec(splits, Seq::empty(), cs, ov), splits, w) && merge_shape(
                splits,
                w,
                cs,
                ov,
            ),
{
    let e: Seq<Seq<char>> = Seq::empty();
    assert(splits.subrange(0, 0) =~= e);
    let w = lemma_merge_shape(splits, 0, e, e, 0, 0, Seq::empty(), cs, ov);
    assert(windows_ok(merge_spec(splits, Seq::empty(), cs, ov), splits, w));
}

// ---------------------------------------------------------------------------
// Stretches of the text
// ---------------------------------------------------------------------------

/// Where piece `p` starts in the concatenation of `pieces`.
pub open spec fn offset(pieces: Seq<Seq<char>>, p: int) -> int {
    flatten(pieces.take(p)).len() as int
}

/// `chunk` is drawn, in order, from the non-empty stretch
/// `text[span.0..span.1]`.
pub open spec fn in_span(chunk: Seq<char>, text: Seq<char>, span: (int, int)) -> bool {
    &&& 0 <= span.0 < span.1 <= text.len()
    &&& is_subsequence(chunk, text.subrange(span.0, span.1))
}

/// `spans` gives each chunk its stretch of the text, and the stretches move
/// strictly forward: both their starts and their ends increase.
pub open spec fn spans_ok(chunks: Seq<Seq<char>>, text: Seq<char>, spans: Seq<(int, int)>) -> bool {
    &&& spans.len() == chunks.len()
    &&& forall|k: int| 0 <= k < spans.len() ==> in_span(chunks[k], text, #[trigger] spans[k])
    &&& forall|k: int, l: int|
        0 <= k < l < spans.len() ==> (#[trigger] spans[k]).0 < (#[trigger] spans[l]).0 && spans[k].1
            < spans[l].1
}

/// The chunks come from the text in order: each is drawn, in order, from its
/// own stretch of the text, and these stretches move strictly forward.
pub open spec fn drawn_in_order(chunks: Seq<Seq<char>>, text: Seq<char>) -> bool {
    exists|spans: Seq<(int, int)>| spans_ok(chunks, text, spans)
}

pub(crate) proof fn lemma_offset_step(pieces: Seq<Seq<char>>, p: int)
    requires
        0 <= p < pieces.len(),
    ensures
        offset(pieces, p + 1) == offset(pieces, p) + pieces[p].len(),
{
    assert(pieces.take(p + 1) =~= pieces.take(p).push(pieces[p]));
    lemma_flatten_push(pieces.take(p), pieces[p]);
}

pub(crate) proof fn lemma_offset_le(pieces: Seq<Seq<char>>, p: int, q: int)
    requires
        0 <= p <= q <= pieces.len(),
    ensures
        offset(pieces, p) <= offset(pieces, q),
        pieces.len() > 0 && (forall|k: int| 0 <= k < pieces.len() ==> (#[trigger] pieces[k]).len()
            > 0) && p < q ==> offset(pieces, p) < offset(pieces, q),
        offset(pieces, pieces.len() as int) == flatten(pieces).len(),
        offset(pieces, 0) == 0,
    decreases q - p,
{
    assert(pieces.take(pieces.len() as int) =~= pieces);
    assert(pieces.take(0) =~= Seq::<Seq<char>>::empty());
    assert(flatten(Seq::<Seq<char>>::empty()) =~= Seq::<char>::empty());
    if p < q {
        lemma_offset_step(pieces, q - 1);
        lemma_offset_le(pieces, p, q - 1);
    }
}

/// The pieces `p..q` are the stretch of the concatenation between their
/// offsets.
pub(crate) proof fn lemma_flatten_subrange(pieces: Seq<Seq<char>>, p: int, q: int)
    requires
        0 <= p <= q <= pieces.len(),
    ensures
        flatten(pieces.subrange(p, q)) == flatten(pieces).subrange(offset(pieces, p), offset(pieces, q)),
{
    assert(pieces.take(q) =~= pieces.take(p) + pieces.subrange(p, q));
    lemma_flatten_concat(pieces.take(p), pieces.subrange(p, q));
    assert(pieces =~= pieces.take(q) + pieces.skip(q));
    lemma_flatten_concat(pieces.take(q), pieces.skip(q));
    assert(flatten(pieces).subrange(offset(pieces, p), offset(pieces, q)) =~= flatten(
        pieces.subrange(p, q),
    ));
}

/// A window of splits that were taken at increasing piece indices `gidx` is
/// drawn from the stretch between its first and its last piece.
proof fn lemma_window_span(
    pieces: Seq<Seq<char>>,
    good: Seq<Seq<char>>,
    gidx: Seq<int>,
    a: int,
    b: int,
)
    requires
        embeds(good, pieces, gidx),
        0 <= a < b <= good.len(),
        forall|k: int| 0 <= k < pieces.len() ==> (#[trigger] pieces[k]).len() > 0,
    ensures
        in_span(
            flatten(good.subrange(a, b)),
            flatten(pieces),
            (offset(pieces, gidx[a]), offset(pieces, gidx[b - 1] + 1)),
        ),
{
    let lo = gidx[a];
    let hi = gidx[b - 1] + 1;
    if a < b - 1 {
        assert(gidx[a] < gidx[b - 1]);
    }
    let sub = good.subrange(a, b);
    let part = pieces.subrange(lo, hi);
    let idx = Seq::new(sub.len(), |t: int| gidx[a + t] - lo);
    assert forall|t: int| 0 <= t < idx.len() implies 0 <= #[trigger] idx[t] < part.len()
        && part[idx[t]] == sub[t] by {
        if t > 0 {
            assert(gidx[a] < gidx[a + t]);
        }
        if a + t < b - 1 {
            assert(gidx[a + t] < gidx[b - 1]);
        }
        assert(part[idx[t]] == pieces[gidx[a + t]]);
    }
    assert forall|t: int, u: int| 0 <= t < u < idx.len() implies #[trigger] idx[t]
        < #[trigger] idx[u] by {
        assert(gidx[a + t] < gidx[a + u]);
    }
    let r = lemma_flatten_embeds(sub, part, idx);
    lemma_flatten_subrange(pieces, lo, hi);
    lemma_offset_le(pieces, lo, hi);
    lemma_offset_le(pieces, hi, pieces.len() as int);
}

proof fn lemma_spans_concat(
    a: Seq<Seq<char>>,
    sa: Seq<(int, int)>,
    b: Seq<Seq<char>>,
    sb: Seq<(int, int)>,
    text: Seq<char>,
    front: int,
)
    requires
        spans_ok(a, text, sa),
        spans_ok(b, text, sb),
        forall|k: int| 0 <= k < sa.len() ==> (#[trigger] sa[k]).1 <= front,
        forall|k: int| 0 <= k < sb.len() ==> front <= (#[trigger] sb[k]).0,
    ensures
        spans_ok(a + b, text, sa + sb),
{
    let s = sa + sb;
    let c = a + b;
    assert forall|k: int| 0 <= k < s.len() implies in_span(c[k], text, #[trigger] s[k]) by {
        if k < sa.len() {
            assert(s[k] == sa[k]);
            assert(c[k] == a[k]);
        } else {
            assert(s[k] == sb[k - sa.len()]);
            assert(c[k] == b[k - sa.len()]);
        }
    }
    assert forall|k: int, l: int| 0 <= k < l < s.len() implies (#[trigger] s[k]).0
        < (#[trigger] s[l]).0 && s[k].1 < s[l].1 by {
        if l < sa.len() {
            assert(s[k] == sa[k]);
            assert(s[l] == sa[l]);
        } else if k < sa.len() {
            assert(s[k] == sa[k]);
            assert(s[l] == sb[l - sa.len()]);
            assert(in_span(a[k], text, sa[k]));
            assert(in_span(b[l - sa.len()], text, sb[l - sa.len()]));
        } else {
            assert(s[k] == sb[k - sa.len()]);
            assert(s[l] == sb[l - sa.len()]);
        }
    }
}

// ---------------------------------------------------------------------------
// The recursive split keeps the order of the text
// ---------------------------------------------------------------------------

/// The chunks emitted so far, followed by the merge of the waiting splits.
proof fn lemma_flush_spans(
    pieces: Seq<Seq<char>>,
    j: int,
    finals: Seq<Seq<char>>,
    good: Seq<Seq<char>>,
    gidx: Seq<int>,
    spans: Seq<(int, int)>,
    front: int,
    cs: nat,
    ov: nat,
) -> (r: Seq<(int, int)>)
    requires
        0 <= j <= pieces.len(),
        forall|k: int| 0 <= k < pieces.len() ==> (#[trigger] pieces[k]).len() > 0,
        spans_ok(finals, flatten(pieces), spans),
        forall|k: int| 0 <= k < spans.len() ==> (#[trigger] spans[k]).1 <= front,
        0 <= front <= offset(pieces, j),
        embeds(good, pieces, gidx),
        forall|t: int| 0 <= t < gidx.len() ==> #[trigger] gidx[t] < j && front <= offset(pieces, gidx[t]),
    ensures
        spans_ok(
            if good.len() > 0 {
                finals + merge_spec(good, Seq::empty(), cs, ov)
            } else {
                finals
            },
            flatten(pieces),
            r,
        ),
        forall|k: int| 0 <= k < r.len() ==> (#[trigger] r[k]).1 <= offset(pieces, j),
{
    let text = flatten(pieces);
    if good.len() == 0 {
        assert forall|k: int| 0 <= k < spans.len() implies (#[trigger] spans[k]).1 <= offset(pieces, j) by {}
        spans
    } else {
        let e: Seq<Seq<char>> = Seq::empty();
        let m = merge_spec(good, Seq::empty(), cs, ov);
        assert(good.subrange(0, 0) =~= e);
        let w = lemma_merge_windows(good, 0, e, e, 0, Seq::empty(), cs, ov);
        assert(windows_ok(m, good, w));
        let ms = Seq::new(
            w.len(),
            |k: int| (offset(pieces, gidx[w[k].0]), offset(pieces, gidx[w[k].1 - 1] + 1)),
        );
        assert forall|k: int| 0 <= k < ms.len() implies in_span(m[k], text, #[trigger] ms[k]) && front
            <= ms[k].0 && ms[k].1 <= offset(pieces, j) by {
            assert(0 <= w[k].0 < w[k].1 <= good.len());
            lemma_window_span(pieces, good, gidx, w[k].0, w[k].1);
            assert(gidx[w[k].1 - 1] < j);
            lemma_offset_le(pieces, gidx[w[k].1 - 1] + 1, j);
        }
        assert forall|k: int, l: int| 0 <= k < l < ms.len() implies (#[trigger] ms[k]).0
            < (#[trigger] ms[l]).0 && ms[k].1 < ms[l].1 by {
            assert(w[k].0 < w[l].0 && w[k].1 < w[l].1);
            assert(0 <= w[k].0 < w[k].1 <= good.len());
            assert(0 <= w[l].0 < w[l].1 <= good.len());
            let ka = gidx[w[k].0];
            let la = gidx[w[l].0];
            let kb = gidx[w[k].1 - 1];
            let lb = gidx[w[l].1 - 1];
            assert(ka < la);
            assert(kb < lb);
            assert(0 <= ka && la < pieces.len());
            assert(0 <= kb && lb < pieces.len());
            lemma_offset_le(pieces, ka, la);
            lemma_offset_le(pieces, kb + 1, lb + 1);
        }
        assert(spans_ok(m, text, ms));
        lemma_spans_concat(finals, spans, m, ms, text, front);
        let r = spans + ms;
        assert forall|k: int| 0 <= k < r.len() implies (#[trigger] r[k]).1 <= offset(pieces, j) by {
            if k < spans.len() {
                assert(r[k] == spans[k]);
            } else {
                assert(r[k] == ms[k - spans.len()]);
            }
        }
        r
    }
}

proof fn lemma_fold_spans(
    pieces: Seq<Seq<char>>,
    j: int,
    finals: Seq<Seq<char>>,
    good: Seq<Seq<char>>,
    gidx: Seq<int>,
    next: Seq<Seq<char>>,
    cs: nat,
    ov: nat,
    spans: Seq<(int, int)>,
    front: int,
) -> (r: Seq<(int, int)>)
    requires
        0 <= j <= pieces.len(),
        forall|k: int| 0 <= k < pieces.len() ==> (#[trigger] pieces[k]).len() > 0,
        spans_ok(finals, flatten(pieces), spans),
        forall|k: int| 0 <= k < spans.len() ==> (#[trigger] spans[k]).1 <= front,
        0 <= front <= offset(pieces, j),
        embeds(good, pieces, gidx),
        forall|t: int| 0 <= t < gidx.len() ==> #[trigger] gidx[t] < j && front <= offset(pieces, gidx[t]),
    ensures
        spans_ok(fold_splits(pieces, j, finals, good, next, cs, ov), flatten(pieces), r),
    decreases
            (if next.len() == 0 {
                0
            } else {
                next.len() + 1
            }),
            0int,
            pieces.len() - j,
{
    let text = flatten(pieces);
    let fr = lemma_flush_spans(pieces, j, finals, good, gidx, spans, front, cs, ov);
    let flushed = if good.len() > 0 {
        finals + merge_spec(good, Seq::empty(), cs, ov)
    } else {
        finals
    };
    if j >= pieces.len() {
        assert(fold_splits(pieces, j, finals, good, next, cs, ov) == flushed);
        fr
    } else {
        let s = pieces[j];
        lemma_offset_le(pieces, j, j + 1);
        lemma_offset_le(pieces, j + 1, pieces.len() as int);
        if all_white(s) {
            assert(fold_splits(pieces, j, finals, good, next, cs, ov) == fold_splits(
                pieces,
                j + 1,
                finals,
                good,
                next,
                cs,
                ov,
            ));
            lemma_fold_spans(pieces, j + 1, finals, good, gidx, next, cs, ov, spans, front)
        } else if byte_len(s) < cs {
            let g2 = good.push(s);
            let i2 = gidx.push(j);
            assert(embeds(g2, pieces, i2)) by {
                assert forall|t: int| 0 <= t < i2.len() implies 0 <= #[trigger] i2[t] < pieces.len()
                    && pieces[i2[t]] == g2[t] by {
                    if t < gidx.len() {
                        assert(i2[t] == gidx[t]);
                    }
                }
                assert forall|t: int, u: int| 0 <= t < u < i2.len() implies #[trigger] i2[t]
                    < #[trigger] i2[u] by {
                    assert(i2[t] == gidx[t]);
                    if u < gidx.len() {
                        assert(i2[u] == gidx[u]);
                    }
                }
            }
            assert forall|t: int| 0 <= t < i2.len() implies #[trigger] i2[t] < j + 1 && front
                <= offset(pieces, i2[t]) by {
                if t < gidx.len() {
                    assert(i2[t] == gidx[t]);
                }
            }
            assert(fold_splits(pieces, j, finals, good, next, cs, ov) == fold_splits(
                pieces,
                j + 1,
                finals,
                g2,
                next,
                cs,
                ov,
            ));
            lemma_fold_spans(pieces, j + 1, finals, g2, i2, next, cs, ov, spans, front)
        } else {
            let oj = offset(pieces, j);
            let oj1 = offset(pieces, j + 1);
            lemma_flatten_subrange(pieces, j, j + 1);
            assert(pieces.subrange(j, j + 1) =~= seq![s]);
            assert(seq![s].drop_last() =~= Seq::<Seq<char>>::empty());
            assert(flatten(Seq::<Seq<char>>::empty()) =~= Seq::<char>::empty());
            assert(flatten(seq![s]) =~= s);
            assert(text.subrange(oj, oj1) == s);
            let e: Seq<Seq<char>> = Seq::empty();
            let ei: Seq<int> = Seq::empty();
            if next.len() == 0 {
                let one = seq![s];
                let sp = seq![(oj, oj1)];
                let id = lemma_embed_self(s);
                assert(in_span(one[0], text, sp[0]));
                assert(spans_ok(one, text, sp));
                lemma_spans_concat(flushed, fr, one, sp, text, oj);
                assert(flushed.push(s) =~= flushed + one);
                let fs = fr + sp;
                assert forall|k: int| 0 <= k < fs.len() implies (#[trigger] fs[k]).1 <= oj1 by {
                    if k < fr.len() {
                        assert(fs[k] == fr[k]);
                    } else {
                        assert(fs[k] == sp[0]);
                    }
                }
                assert(fold_splits(pieces, j, finals, good, next, cs, ov) == fold_splits(
                    pieces,
                    j + 1,
                    flushed.push(s),
                    e,
                    next,
                    cs,
                    ov,
                ));
                lemma_fold_spans(pieces, j + 1, flushed.push(s), e, ei, next, cs, ov, fs, oj1)
            } else {
                let sub = split_chunks(s, next, cs, ov);
                let rs = lemma_chunks_spans(s, next, cs, ov);
                let sh = rs.map_values(|x: (int, int)| (x.0 + oj, x.1 + oj));
                assert forall|k: int| 0 <= k < sh.len() implies in_span(sub[k], text, #[trigger] sh[k])
                    && oj <= sh[k].0 && sh[k].1 <= oj1 by {
                    assert(in_span(sub[k], s, rs[k]));
                    assert(sh[k] == (rs[k].0 + oj, rs[k].1 + oj));
                    assert(s.subrange(rs[k].0, rs[k].1) =~= text.subrange(sh[k].0, sh[k].1));
                }
                assert forall|k: int, l: int| 0 <= k < l < sh.len() implies (#[trigger] sh[k]).0
                    < (#[trigger] sh[l]).0 && sh[k].1 < sh[l].1 by {
                    assert(rs[k].0 < rs[l].0 && rs[k].1 < rs[l].1);
                }
                assert(spans_ok(sub, text, sh));
                lemma_spans_concat(flushed, fr, sub, sh, text, oj);
                let fs = fr + sh;
                assert forall|k: int| 0 <= k < fs.len() implies (#[trigger] fs[k]).1 <= oj1 by {
                    if k < fr.len() {
                        assert(fs[k] == fr[k]);
                    } else {
                        assert(fs[k] == sh[k - fr.len()]);
                    }
                }
                assert(fold_splits(pieces, j, finals, good, next, cs, ov) == fold_splits(
                    pieces,
                    j + 1,
                    flushed + sub,
                    e,
                    next,
                    cs,
                    ov,
                ));
                lemma_fold_spans(pieces, j + 1, flushed + sub, e, ei, next, cs, ov, fs, oj1)
            }
        }
    }
}

proof fn lemma_chunks_spans(text: Seq<char>, seps: Seq<Seq<char>>, cs: nat, ov: nat) -> (r: Seq<
    (int, int),
>)
    ensures
        spans_ok(split_chunks(text, seps, cs, ov), text, r),
    decreases seps.len(), 1int, 0int,
{
    if text.len() == 0 {
        Seq::empty()
    } else {
        let chosen = choose_separator(text, seps);
        lemma_choose_from_shorter(text, seps, 0);
        let pieces = split_pieces(text, chosen.0);
        lemma_split_pieces_flatten(text, chosen.0);
        lemma_offset_le(pieces, 0, 0);
        let e: Seq<Seq<char>> = Seq::empty();
        assert(split_chunks(text, seps, cs, ov) == fold_splits(
            pieces,
            0,
            e,
            e,
            chosen.1,
            cs,
            ov,
        ));
        lemma_fold_spans(pieces, 0, e, e, Seq::empty(), chosen.1, cs, ov, Seq::empty(), 0)
    }
}

/// The splitter keeps the order of the text. Each chunk is drawn from its own
/// stretch of the text, its characters in the order they have there, and
/// from one chunk to the next both the start and the end of the stretch move
/// forward. In particular every chunk is a subsequence of the text.
pub proof fn lemma_chunks_in_order(text: Seq<char>, seps: Seq<Seq<char>>, cs: nat, ov: nat)
    ensures
        drawn_in_order(split_chunks(text, seps, cs, ov), text),
        forall|k: int|
            0 <= k < split_chunks(text, seps, cs, ov).len() ==> is_subsequence(
                #[trigger] split_chunks(text, seps, cs, ov)[k],
                text,
            ),
{
    let chunks = split_chunks(text, seps, cs, ov);
    let r = lemma_chunks_spans(text, seps, cs, ov);
    assert forall|k: int| 0 <= k < chunks.len() implies is_subsequence(#[trigger] chunks[k], text) by {
        assert(in_span(chunks[k], text, r[k]));
        let part = text.subrange(r[k].0, r[k].1);
        let e = choose|e: Seq<int>| embeds(chunks[k], part, e);
        let p = Seq::new(part.len(), |t: int| t + r[k].0);
        assert(embeds(part, text, p));
        lemma_embed_trans(chunks[k], part, e, text, p);
    }
}

} // verus!
