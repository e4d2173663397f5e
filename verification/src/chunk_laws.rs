//! What holds of every result of the recursive splitter.
use vstd::prelude::*;

use crate::recursive_character_text_splitter::{
    choose_from, choose_separator, fold_splits, join, lemma_join_first, merge_from, merge_spec,
    shrink, split_chunks, split_pieces, lemma_split_pieces_flatten,
};
use crate::text::{all_white, byte_len, char_width, contains, flatten, lemma_flatten_concat};

verus! {

// ---------------------------------------------------------------------------
// Pieces of a concatenation
// ---------------------------------------------------------------------------

/// Every character of a piece is a character of the concatenation.
proof fn lemma_piece_char(pieces: Seq<Seq<char>>, k: int, i: int)
    requires
        0 <= k < pieces.len(),
        0 <= i < pieces[k].len(),
    ensures
        exists|m: int| 0 <= m < flatten(pieces).len() && flatten(pieces)[m] == pieces[k][i],
{
    let before = pieces.take(k);
    let after = pieces.skip(k);
    assert(pieces =~= before + after);
    lemma_flatten_concat(before, after);
    let tail = after.skip(1);
    assert(after =~= seq![pieces[k]] + tail);
    lemma_flatten_concat(seq![pieces[k]], tail);
    assert(seq![pieces[k]].drop_last() =~= Seq::<Seq<char>>::empty());
    assert(flatten(Seq::<Seq<char>>::empty()) == Seq::<char>::empty());
    assert(flatten(seq![pieces[k]]) =~= pieces[k]);
    let m = flatten(before).len() + i;
    assert(flatten(pieces)[m] == pieces[k][i]);
}

/// The pieces of a whitespace-only text are whitespace only.
proof fn lemma_pieces_of_blank(pieces: Seq<Seq<char>>)
    requires
        all_white(flatten(pieces)),
    ensures
        forall|k: int| 0 <= k < pieces.len() ==> all_white(#[trigger] pieces[k]),
{
    assert forall|k: int| 0 <= k < pieces.len() implies all_white(#[trigger] pieces[k]) by {
        assert forall|i: int| 0 <= i < pieces[k].len() implies crate::text::is_white_space(
            #[trigger] pieces[k][i],
        ) by {
            lemma_piece_char(pieces, k, i);
        }
    }
}

/// A text that is not whitespace only has a piece that is not.
proof fn lemma_piece_of_non_blank(pieces: Seq<Seq<char>>)
    requires
        !all_white(flatten(pieces)),
    ensures
        exists|k: int| 0 <= k < pieces.len() && !all_white(#[trigger] pieces[k]),
    decreases pieces.len(),
{
    if pieces.len() == 0 {
        assert(flatten(pieces) =~= Seq::<char>::empty());
    } else {
        let f = flatten(pieces);
        assert(f == flatten(pieces.drop_last()) + pieces.last());
        if all_white(pieces.last()) {
            assert(!all_white(flatten(pieces.drop_last()))) by {
                if all_white(flatten(pieces.drop_last())) {
                    assert forall|i: int| 0 <= i < f.len() implies crate::text::is_white_space(
                        #[trigger] f[i],
                    ) by {
                        if i < flatten(pieces.drop_last()).len() {
                            assert(f[i] == flatten(pieces.drop_last())[i]);
                        } else {
                            assert(f[i] == pieces.last()[i - flatten(pieces.drop_last()).len()]);
                        }
                    }
                }
            }
            lemma_piece_of_non_blank(pieces.drop_last());
            let k = choose|k: int|
                0 <= k < pieces.drop_last().len() && !all_white(#[trigger] pieces.drop_last()[k]);
            assert(pieces[k] == pieces.drop_last()[k]);
        } else {
            assert(!all_white(pieces[pieces.len() - 1]));
        }
    }
}

/// A joined window that starts with a non-blank part is not blank.
proof fn lemma_join_not_blank(doc: Seq<Seq<char>>, sep: Seq<char>)
    requires
        doc.len() >= 1,
        !all_white(doc[0]),
    ensures
        !all_white(join(doc, sep)),
{
    let j = join(doc, sep);
    if doc.len() >= 2 {
        lemma_join_first(doc, sep);
    }
    assert(j.subrange(0, doc[0].len() as int) =~= doc[0]);
    let i = choose|i: int| 0 <= i < doc[0].len() && !crate::text::is_white_space(#[trigger] doc[0][i]);
    assert(j[i] == doc[0][i]);
}

// ---------------------------------------------------------------------------
// No chunk is blank
// ---------------------------------------------------------------------------

proof fn lemma_shrink_subrange(
    doc: Seq<Seq<char>>,
    sep: Seq<char>,
    pending: nat,
    cs: nat,
    ov: nat,
)
    ensures
        exists|d: int|
            0 <= d <= doc.len() && shrink(doc, sep, pending, cs, ov) == doc.subrange(
                d,
                doc.len() as int,
            ),
    decreases doc.len(),
{
    if doc.len() > 0 && (crate::text::byte_len(join(doc, sep)) > ov || crate::text::byte_len(
        join(doc, sep),
    ) + pending > cs) {
        lemma_shrink_subrange(doc.drop_first(), sep, pending, cs, ov);
        let d = choose|d: int|
            0 <= d <= doc.drop_first().len() && shrink(doc.drop_first(), sep, pending, cs, ov)
                == doc.drop_first().subrange(d, doc.drop_first().len() as int);
        assert(doc.drop_first().subrange(d, doc.drop_first().len() as int) =~= doc.subrange(
            d + 1,
            doc.len() as int,
        ));
    } else {
        assert(doc.subrange(0, doc.len() as int) =~= doc);
    }
}

proof fn lemma_merge_not_blank(
    splits: Seq<Seq<char>>,
    i: int,
    merged: Seq<Seq<char>>,
    doc: Seq<Seq<char>>,
    sep: Seq<char>,
    cs: nat,
    ov: nat,
)
    requires
        forall|k: int| 0 <= k < splits.len() ==> !all_white(#[trigger] splits[k]),
        forall|k: int| 0 <= k < merged.len() ==> !all_white(#[trigger] merged[k]),
        forall|k: int| 0 <= k < doc.len() ==> !all_white(#[trigger] doc[k]),
    ensures
        forall|k: int|
            0 <= k < merge_from(splits, i, merged, doc, sep, cs, ov).len() ==> !all_white(
                #[trigger] merge_from(splits, i, merged, doc, sep, cs, ov)[k],
            ),
    decreases splits.len() - i,
{
    if doc.len() > 0 {
        lemma_join_not_blank(doc, sep);
    }
    if i < 0 || i >= splits.len() {
        if doc.len() > 0 {
            let r = merged.push(join(doc, sep));
            assert(merge_from(splits, i, merged, doc, sep, cs, ov) == r);
            assert forall|k: int| 0 <= k < r.len() implies !all_white(#[trigger] r[k]) by {
                if k < merged.len() {
                    assert(r[k] == merged[k]);
                }
            }
        }
    } else {
        let split = splits[i];
        let add: nat = if doc.len() == 0 {
            0
        } else {
            crate::text::byte_len(sep)
        };
        if crate::text::byte_len(join(doc, sep)) + add + crate::text::byte_len(split) > cs
            && doc.len() > 0 {
            let m2 = merged.push(join(doc, sep));
            let pending = add + crate::text::byte_len(split);
            let d = shrink(doc, sep, pending, cs, ov);
            lemma_shrink_subrange(doc, sep, pending, cs, ov);
            let lo = choose|lo: int|
                0 <= lo <= doc.len() && shrink(doc, sep, pending, cs, ov) == doc.subrange(
                    lo,
                    doc.len() as int,
                );
            let d2 = d.push(split);
            assert forall|k: int| 0 <= k < m2.len() implies !all_white(#[trigger] m2[k]) by {
                if k < merged.len() {
                    assert(m2[k] == merged[k]);
                }
            }
            assert forall|k: int| 0 <= k < d2.len() implies !all_white(#[trigger] d2[k]) by {
                if k < d.len() {
                    assert(d2[k] == doc[lo + k]);
                }
            }
            assert(merge_from(splits, i, merged, doc, sep, cs, ov) == merge_from(
                splits,
                i + 1,
                m2,
                d2,
                sep,
                cs,
                ov,
            ));
            lemma_merge_not_blank(splits, i + 1, m2, d2, sep, cs, ov);
        } else {
            let d2 = doc.push(split);
            assert forall|k: int| 0 <= k < d2.len() implies !all_white(#[trigger] d2[k]) by {
                if k < doc.len() {
                    assert(d2[k] == doc[k]);
                }
            }
            assert(merge_from(splits, i, merged, doc, sep, cs, ov) == merge_from(
                splits,
                i + 1,
                merged,
                d2,
                sep,
                cs,
                ov,
            ));
            lemma_merge_not_blank(splits, i + 1, merged, d2, sep, cs, ov);
        }
    }
}

proof fn lemma_fold_not_blank(
    splits: Seq<Seq<char>>,
    j: int,
    finals: Seq<Seq<char>>,
    good: Seq<Seq<char>>,
    next: Seq<Seq<char>>,
    cs: nat,
    ov: nat,
)
    requires
        0 <= j,
        forall|k: int| 0 <= k < finals.len() ==> !all_white(#[trigger] finals[k]),
        forall|k: int| 0 <= k < good.len() ==> !all_white(#[trigger] good[k]),
    ensures
        forall|k: int|
            0 <= k < fold_splits(splits, j, finals, good, next, cs, ov).len() ==> !all_white(
                #[trigger] fold_splits(splits, j, finals, good, next, cs, ov)[k],
            ),
    decreases
            (if next.len() == 0 {
                0
            } else {
                next.len() + 1
            }),
            0int,
            splits.len() - j,
{
    let flushed = if good.len() > 0 {
        finals + merge_spec(good, Seq::empty(), cs, ov)
    } else {
        finals
    };
    if good.len() > 0 {
        lemma_merge_not_blank(good, 0, Seq::empty(), Seq::empty(), Seq::empty(), cs, ov);
        lemma_concat_not_blank(finals, merge_spec(good, Seq::empty(), cs, ov));
    }
    if j >= splits.len() {
        assert(fold_splits(splits, j, finals, good, next, cs, ov) == flushed);
    } else {
        let s = splits[j];
        if all_white(s) {
            assert(fold_splits(splits, j, finals, good, next, cs, ov) == fold_splits(splits, j + 1, finals, good, next, cs, ov));
            lemma_fold_not_blank(splits, j + 1, finals, good, next, cs, ov);
        } else if crate::text::byte_len(s) < cs {
            let g2 = good.push(s);
            assert forall|k: int| 0 <= k < g2.len() implies !all_white(#[trigger] g2[k]) by {
                if k < good.len() {
                    assert(g2[k] == good[k]);
                }
            }
            assert(fold_splits(splits, j, finals, good, next, cs, ov) == fold_splits(splits, j + 1, finals, g2, next, cs, ov));
            lemma_fold_not_blank(splits, j + 1, finals, g2, next, cs, ov);
        } else if next.len() == 0 {
            let f2 = flushed.push(s);
            assert forall|k: int| 0 <= k < f2.len() implies !all_white(#[trigger] f2[k]) by {
                if k < flushed.len() {
                    assert(f2[k] == flushed[k]);
                }
            }
            assert(fold_splits(splits, j, finals, good, next, cs, ov) == fold_splits(splits, j + 1, f2, Seq::empty(), next, cs, ov));
            lemma_fold_not_blank(splits, j + 1, f2, Seq::empty(), next, cs, ov);
        } else {
            lemma_chunks_not_blank(s, next, cs, ov);
            let sub = split_chunks(s, next, cs, ov);
            lemma_concat_not_blank(flushed, sub);
            assert(fold_splits(splits, j, finals, good, next, cs, ov) == fold_splits(splits, j + 1, flushed + sub, Seq::empty(), next, cs, ov));
            lemma_fold_not_blank(splits, j + 1, flushed + sub, Seq::empty(), next, cs, ov);
        }
    }
}

proof fn lemma_concat_not_blank(a: Seq<Seq<char>>, b: Seq<Seq<char>>)
    requires
        forall|k: int| 0 <= k < a.len() ==> !all_white(#[trigger] a[k]),
        forall|k: int| 0 <= k < b.len() ==> !all_white(#[trigger] b[k]),
    ensures
        forall|k: int| 0 <= k < (a + b).len() ==> !all_white(#[trigger] (a + b)[k]),
{
    assert forall|k: int| 0 <= k < (a + b).len() implies !all_white(#[trigger] (a + b)[k]) by {
        if k < a.len() {
            assert((a + b)[k] == a[k]);
        } else {
            assert((a + b)[k] == b[k - a.len()]);
        }
    }
}

/// No chunk is whitespace only: every chunk holds a character that is not
/// whitespace.
pub proof fn lemma_chunks_not_blank(text: Seq<char>, seps: Seq<Seq<char>>, cs: nat, ov: nat)
    ensures
        forall|k: int|
            0 <= k < split_chunks(text, seps, cs, ov).len() ==> !all_white(
                #[trigger] split_chunks(text, seps, cs, ov)[k],
            ),
    decreases seps.len(), 1int, 0int,
{
    if text.len() > 0 {
        let chosen = choose_separator(text, seps);
        crate::recursive_character_text_splitter::lemma_choose_from_shorter(text, seps, 0);
        lemma_fold_not_blank(
            split_pieces(text, chosen.0),
            0,
            Seq::empty(),
            Seq::empty(),
            chosen.1,
            cs,
            ov,
        );
        assert(split_chunks(text, seps, cs, ov) == fold_splits(
            split_pieces(text, chosen.0),
            0,
            Seq::empty(),
            Seq::empty(),
            chosen.1,
            cs,
            ov,
        ));
    }
}

// ---------------------------------------------------------------------------
// No chunks exactly for blank text
// ---------------------------------------------------------------------------

proof fn lemma_fold_blank(
    splits: Seq<Seq<char>>,
    j: int,
    next: Seq<Seq<char>>,
    cs: nat,
    ov: nat,
)
    requires
        0 <= j,
        forall|k: int| 0 <= k < splits.len() ==> all_white(#[trigger] splits[k]),
    ensures
        fold_splits(splits, j, Seq::empty(), Seq::empty(), next, cs, ov).len() == 0,
    decreases splits.len() - j,
{
    if j < splits.len() {
        assert(all_white(splits[j]));
        assert(fold_splits(splits, j, Seq::empty(), Seq::empty(), next, cs, ov) == fold_splits(
            splits,
            j + 1,
            Seq::empty(),
            Seq::empty(),
            next,
            cs,
            ov,
        ));
        lemma_fold_blank(splits, j + 1, next, cs, ov);
    }
}

proof fn lemma_merge_nonempty(
    splits: Seq<Seq<char>>,
    i: int,
    merged: Seq<Seq<char>>,
    doc: Seq<Seq<char>>,
    sep: Seq<char>,
    cs: nat,
    ov: nat,
)
    requires
        0 <= i,
        merged.len() > 0 || doc.len() > 0 || i < splits.len(),
    ensures
        merge_from(splits, i, merged, doc, sep, cs, ov).len() > 0,
    decreases splits.len() - i,
{
    if i < splits.len() {
        let split = splits[i];
        let add: nat = if doc.len() == 0 {
            0
        } else {
            crate::text::byte_len(sep)
        };
        if crate::text::byte_len(join(doc, sep)) + add + crate::text::byte_len(split) > cs
            && doc.len() > 0 {
            let m2 = merged.push(join(doc, sep));
            let d2 = shrink(doc, sep, add + crate::text::byte_len(split), cs, ov).push(split);
            assert(merge_from(splits, i, merged, doc, sep, cs, ov) == merge_from(
                splits,
                i + 1,
                m2,
                d2,
                sep,
                cs,
                ov,
            ));
            lemma_merge_nonempty(splits, i + 1, m2, d2, sep, cs, ov);
        } else {
            assert(merge_from(splits, i, merged, doc, sep, cs, ov) == merge_from(
                splits,
                i + 1,
                merged,
                doc.push(split),
                sep,
                cs,
                ov,
            ));
            lemma_merge_nonempty(splits, i + 1, merged, doc.push(split), sep, cs, ov);
        }
    }
}

proof fn lemma_fold_nonempty(
    splits: Seq<Seq<char>>,
    j: int,
    finals: Seq<Seq<char>>,
    good: Seq<Seq<char>>,
    next: Seq<Seq<char>>,
    cs: nat,
    ov: nat,
)
    requires
        0 <= j,
        finals.len() > 0 || good.len() > 0 || exists|k: int|
            j <= k < splits.len() && !all_white(#[trigger] splits[k]),
    ensures
        fold_splits(splits, j, finals, good, next, cs, ov).len() > 0,
    decreases
            (if next.len() == 0 {
                0
            } else {
                next.len() + 1
            }),
            0int,
            splits.len() - j,
{
    let flushed = if good.len() > 0 {
        finals + merge_spec(good, Seq::empty(), cs, ov)
    } else {
        finals
    };
    if good.len() > 0 {
        lemma_merge_nonempty(good, 0, Seq::empty(), Seq::empty(), Seq::empty(), cs, ov);
    }
    if j >= splits.len() {
        assert(fold_splits(splits, j, finals, good, next, cs, ov) == flushed);
    } else {
        let s = splits[j];
        if all_white(s) {
            if !(finals.len() > 0 || good.len() > 0) {
                let k = choose|k: int| j <= k < splits.len() && !all_white(#[trigger] splits[k]);
                assert(k != j);
                assert(j + 1 <= k);
            }
            assert(fold_splits(splits, j, finals, good, next, cs, ov) == fold_splits(
                splits,
                j + 1,
                finals,
                good,
                next,
                cs,
                ov,
            ));
            lemma_fold_nonempty(splits, j + 1, finals, good, next, cs, ov);
        } else if crate::text::byte_len(s) < cs {
            assert(fold_splits(splits, j, finals, good, next, cs, ov) == fold_splits(
                splits,
                j + 1,
                finals,
                good.push(s),
                next,
                cs,
                ov,
            ));
            lemma_fold_nonempty(splits, j + 1, finals, good.push(s), next, cs, ov);
        } else if next.len() == 0 {
            assert(fold_splits(splits, j, finals, good, next, cs, ov) == fold_splits(
                splits,
                j + 1,
                flushed.push(s),
                Seq::empty(),
                next,
                cs,
                ov,
            ));
            lemma_fold_nonempty(splits, j + 1, flushed.push(s), Seq::empty(), next, cs, ov);
        } else {
            let sub = split_chunks(s, next, cs, ov);
            lemma_chunks_nonempty(s, next, cs, ov);
            assert(fold_splits(splits, j, finals, good, next, cs, ov) == fold_splits(
                splits,
                j + 1,
                flushed + sub,
                Seq::empty(),
                next,
                cs,
                ov,
            ));
            lemma_fold_nonempty(splits, j + 1, flushed + sub, Seq::empty(), next, cs, ov);
        }
    }
}

proof fn lemma_chunks_nonempty(text: Seq<char>, seps: Seq<Seq<char>>, cs: nat, ov: nat)
    requires
        !all_white(text),
    ensures
        split_chunks(text, seps, cs, ov).len() > 0,
    decreases seps.len(), 1int, 0int,
{
    let chosen = choose_separator(text, seps);
    crate::recursive_character_text_splitter::lemma_choose_from_shorter(text, seps, 0);
    let pieces = split_pieces(text, chosen.0);
    lemma_split_pieces_flatten(text, chosen.0);
    lemma_piece_of_non_blank(pieces);
    lemma_fold_nonempty(pieces, 0, Seq::empty(), Seq::empty(), chosen.1, cs, ov);
    assert(split_chunks(text, seps, cs, ov) == fold_splits(
        pieces,
        0,
        Seq::empty(),
        Seq::empty(),
        chosen.1,
        cs,
        ov,
    ));
}

/// A text gives no chunk exactly when it is whitespace only (or empty).
pub proof fn lemma_no_chunks_iff_blank(text: Seq<char>, seps: Seq<Seq<char>>, cs: nat, ov: nat)
    ensures
        (split_chunks(text, seps, cs, ov).len() == 0) <==> all_white(text),
{
    if all_white(text) {
        if text.len() > 0 {
            let chosen = choose_separator(text, seps);
            let pieces = split_pieces(text, chosen.0);
            lemma_split_pieces_flatten(text, chosen.0);
            lemma_pieces_of_blank(pieces);
            lemma_fold_blank(pieces, 0, chosen.1, cs, ov);
            assert(split_chunks(text, seps, cs, ov) == fold_splits(
                pieces,
                0,
                Seq::empty(),
                Seq::empty(),
                chosen.1,
                cs,
                ov,
            ));
        }
    } else {
        lemma_chunks_nonempty(text, seps, cs, ov);
    }
}

// ---------------------------------------------------------------------------
// Chunks fit in chunk_size
// ---------------------------------------------------------------------------

/// No chunk is longer than `cs` bytes.
pub open spec fn all_fit(chunks: Seq<Seq<char>>, cs: nat) -> bool {
    forall|k: int| 0 <= k < chunks.len() ==> byte_len(#[trigger] chunks[k]) <= cs
}

/// No character of `text` takes more than `cs` bytes.
pub open spec fn narrow(text: Seq<char>, cs: nat) -> bool {
    forall|i: int| 0 <= i < text.len() ==> char_width(#[trigger] text[i]) <= cs
}

/// The separators end in the split into single characters: there are none,
/// or one of them is empty.
pub open spec fn reaches_characters(seps: Seq<Seq<char>>) -> bool {
    seps.len() == 0 || exists|p: int| 0 <= p < seps.len() && #[trigger] seps[p].len() == 0
}

proof fn lemma_shrink_fits(doc: Seq<Seq<char>>, sep: Seq<char>, pending: nat, cs: nat, ov: nat)
    ensures
        ({
            let d = shrink(doc, sep, pending, cs, ov);
            d.len() == 0 || (byte_len(join(d, sep)) <= ov && byte_len(join(d, sep)) + pending <= cs)
        }),
    decreases doc.len(),
{
    if doc.len() > 0 && (byte_len(join(doc, sep)) > ov || byte_len(join(doc, sep)) + pending > cs) {
        lemma_shrink_fits(doc.drop_first(), sep, pending, cs, ov);
    }
}

proof fn lemma_merge_fits(
    splits: Seq<Seq<char>>,
    i: int,
    merged: Seq<Seq<char>>,
    doc: Seq<Seq<char>>,
    sep: Seq<char>,
    cs: nat,
    ov: nat,
)
    requires
        0 <= i,
        forall|k: int| 0 <= k < splits.len() ==> byte_len(#[trigger] splits[k]) < cs,
        all_fit(merged, cs),
        doc.len() > 0 ==> byte_len(join(doc, sep)) <= cs,
    ensures
        all_fit(merge_from(splits, i, merged, doc, sep, cs, ov), cs),
    decreases splits.len() - i,
{
    if i >= splits.len() {
        if doc.len() > 0 {
            let r = merged.push(join(doc, sep));
            assert(all_fit(r, cs)) by {
                assert forall|k: int| 0 <= k < r.len() implies byte_len(#[trigger] r[k]) <= cs by {
                    if k < merged.len() {
                        assert(r[k] == merged[k]);
                    }
                }
            }
        }
    } else {
        let split = splits[i];
        assert(byte_len(split) < cs);
        let add: nat = if doc.len() == 0 {
            0
        } else {
            byte_len(sep)
        };
        if byte_len(join(doc, sep)) + add + byte_len(split) > cs && doc.len() > 0 {
            let m2 = merged.push(join(doc, sep));
            let pending = add + byte_len(split);
            let d = shrink(doc, sep, pending, cs, ov);
            lemma_shrink_fits(doc, sep, pending, cs, ov);
            crate::recursive_character_text_splitter::lemma_join_len_push(d, split, sep);
            assert(all_fit(m2, cs)) by {
                assert forall|k: int| 0 <= k < m2.len() implies byte_len(#[trigger] m2[k]) <= cs by {
                    if k < merged.len() {
                        assert(m2[k] == merged[k]);
                    }
                }
            }
            assert(merge_from(splits, i, merged, doc, sep, cs, ov) == merge_from(
                splits,
                i + 1,
                m2,
                d.push(split),
                sep,
                cs,
                ov,
            ));
            lemma_merge_fits(splits, i + 1, m2, d.push(split), sep, cs, ov);
        } else {
            crate::recursive_character_text_splitter::lemma_join_len_push(doc, split, sep);
            assert(merge_from(splits, i, merged, doc, sep, cs, ov) == merge_from(
                splits,
                i + 1,
                merged,
                doc.push(split),
                sep,
                cs,
                ov,
            ));
            lemma_merge_fits(splits, i + 1, merged, doc.push(split), sep, cs, ov);
        }
    }
}

proof fn lemma_choose_reaches_characters(text: Seq<char>, seps: Seq<Seq<char>>, i: int)
    requires
        0 <= i,
        seps.len() == 0 || exists|p: int| i <= p < seps.len() && #[trigger] seps[p].len() == 0,
    ensures
        ({
            let c = choose_from(text, seps, i);
            (c.0.len() == 0 && c.1.len() == 0) || (c.1.len() > 0 && reaches_characters(c.1))
        }),
    decreases seps.len() - i,
{
    if seps.len() == 0 {
    } else {
        let p = choose|p: int| i <= p < seps.len() && #[trigger] seps[p].len() == 0;
        if seps[i].len() == 0 {
        } else if contains(text, seps[i]) {
            let next = seps.subrange(i + 1, seps.len() as int);
            assert(p > i);
            assert(next[p - i - 1].len() == 0);
        } else {
            assert(p > i);
            lemma_choose_reaches_characters(text, seps, i + 1);
        }
    }
}

/// Every chunk fits in `cs` bytes or is a single character.
pub open spec fn all_fit_or_single(chunks: Seq<Seq<char>>, cs: nat) -> bool {
    forall|k: int|
        0 <= k < chunks.len() ==> byte_len(#[trigger] chunks[k]) <= cs || chunks[k].len() == 1
}

proof fn lemma_concat_fit_or_single(a: Seq<Seq<char>>, b: Seq<Seq<char>>, cs: nat)
    requires
        all_fit_or_single(a, cs),
        all_fit_or_single(b, cs),
    ensures
        all_fit_or_single(a + b, cs),
{
    assert forall|k: int| 0 <= k < (a + b).len() implies byte_len(#[trigger] (a + b)[k]) <= cs || (a
        + b)[k].len() == 1 by {
        if k < a.len() {
            assert((a + b)[k] == a[k]);
        } else {
            assert((a + b)[k] == b[k - a.len()]);
        }
    }
}

proof fn lemma_fold_fits(
    splits: Seq<Seq<char>>,
    j: int,
    finals: Seq<Seq<char>>,
    good: Seq<Seq<char>>,
    next: Seq<Seq<char>>,
    cs: nat,
    ov: nat,
)
    requires
        0 <= j,
        all_fit_or_single(finals, cs),
        forall|k: int| 0 <= k < good.len() ==> byte_len(#[trigger] good[k]) < cs,
        next.len() == 0 ==> all_fit_or_single(splits, cs),
        next.len() > 0 ==> reaches_characters(next),
    ensures
        all_fit_or_single(fold_splits(splits, j, finals, good, next, cs, ov), cs),
    decreases
            (if next.len() == 0 {
                0
            } else {
                next.len() + 1
            }),
            0int,
            splits.len() - j,
{
    let flushed = if good.len() > 0 {
        finals + merge_spec(good, Seq::empty(), cs, ov)
    } else {
        finals
    };
    if good.len() > 0 {
        let m = merge_spec(good, Seq::empty(), cs, ov);
        lemma_merge_fits(good, 0, Seq::empty(), Seq::empty(), Seq::empty(), cs, ov);
        assert(all_fit_or_single(m, cs)) by {
            assert forall|k: int| 0 <= k < m.len() implies byte_len(#[trigger] m[k]) <= cs
                || m[k].len() == 1 by {
                assert(byte_len(m[k]) <= cs);
            }
        }
        lemma_concat_fit_or_single(finals, m, cs);
    }
    if j >= splits.len() {
        assert(fold_splits(splits, j, finals, good, next, cs, ov) == flushed);
    } else {
        let s = splits[j];
        if all_white(s) {
            assert(fold_splits(splits, j, finals, good, next, cs, ov) == fold_splits(
                splits,
                j + 1,
                finals,
                good,
                next,
                cs,
                ov,
            ));
            lemma_fold_fits(splits, j + 1, finals, good, next, cs, ov);
        } else if byte_len(s) < cs {
            let g2 = good.push(s);
            assert forall|k: int| 0 <= k < g2.len() implies byte_len(#[trigger] g2[k]) < cs by {
                if k < good.len() {
                    assert(g2[k] == good[k]);
                }
            }
            assert(fold_splits(splits, j, finals, good, next, cs, ov) == fold_splits(
                splits,
                j + 1,
                finals,
                g2,
                next,
                cs,
                ov,
            ));
            lemma_fold_fits(splits, j + 1, finals, g2, next, cs, ov);
        } else if next.len() == 0 {
            let f2 = flushed.push(s);
            assert(all_fit_or_single(f2, cs)) by {
                assert forall|k: int| 0 <= k < f2.len() implies byte_len(#[trigger] f2[k]) <= cs
                    || f2[k].len() == 1 by {
                    if k < flushed.len() {
                        assert(f2[k] == flushed[k]);
                    } else {
                        assert(f2[k] == splits[j]);
                    }
                }
            }
            assert(fold_splits(splits, j, finals, good, next, cs, ov) == fold_splits(
                splits,
                j + 1,
                f2,
                Seq::empty(),
                next,
                cs,
                ov,
            ));
            lemma_fold_fits(splits, j + 1, f2, Seq::empty(), next, cs, ov);
        } else {
            let sub = split_chunks(s, next, cs, ov);
            lemma_chunks_fit_or_single(s, next, cs, ov);
            lemma_concat_fit_or_single(flushed, sub, cs);
            assert(fold_splits(splits, j, finals, good, next, cs, ov) == fold_splits(
                splits,
                j + 1,
                flushed + sub,
                Seq::empty(),
                next,
                cs,
                ov,
            ));
            lemma_fold_fits(splits, j + 1, flushed + sub, Seq::empty(), next, cs, ov);
        }
    }
}

/// When the separators reach the split into single characters (an empty
/// separator, or none at all), every chunk is at most `cs` bytes long, or is
/// a single character (one wider than `cs` bytes comes out on its own).
pub proof fn lemma_chunks_fit_or_single(text: Seq<char>, seps: Seq<Seq<char>>, cs: nat, ov: nat)
    requires
        reaches_characters(seps),
    ensures
        all_fit_or_single(split_chunks(text, seps, cs, ov), cs),
    decreases seps.len(), 1int, 0int,
{
    if text.len() > 0 {
        let chosen = choose_separator(text, seps);
        crate::recursive_character_text_splitter::lemma_choose_from_shorter(text, seps, 0);
        lemma_choose_reaches_characters(text, seps, 0);
        let pieces = split_pieces(text, chosen.0);
        if chosen.1.len() == 0 {
            assert(all_fit_or_single(pieces, cs)) by {
                assert forall|k: int| 0 <= k < pieces.len() implies byte_len(#[trigger] pieces[k])
                    <= cs || pieces[k].len() == 1 by {
                    assert(pieces[k] == seq![text[k]]);
                }
            }
        }
        lemma_fold_fits(pieces, 0, Seq::empty(), Seq::empty(), chosen.1, cs, ov);
        assert(split_chunks(text, seps, cs, ov) == fold_splits(
            pieces,
            0,
            Seq::empty(),
            Seq::empty(),
            chosen.1,
            cs,
            ov,
        ));
    }
}

/// When the separators reach the split into single characters (an empty
/// separator, or none at all) and no character of the text is wider than
/// `cs` bytes, no chunk is longer than `cs` bytes.
pub proof fn lemma_chunks_fit(text: Seq<char>, seps: Seq<Seq<char>>, cs: nat, ov: nat)
    requires
        reaches_characters(seps),
        narrow(text, cs),
    ensures
        all_fit(split_chunks(text, seps, cs, ov), cs),
{
    let chunks = split_chunks(text, seps, cs, ov);
    lemma_chunks_fit_or_single(text, seps, cs, ov);
    crate::chunk_order::lemma_chunks_in_order(text, seps, cs, ov);
    assert forall|k: int| 0 <= k < chunks.len() implies byte_len(#[trigger] chunks[k]) <= cs by {
        if chunks[k].len() == 1 {
            let c = chunks[k];
            assert(crate::chunk_order::is_subsequence(c, text));
            let idx = choose|idx: Seq<int>| crate::chunk_order::embeds(c, text, idx);
            assert(text[idx[0]] == c[0]);
            assert(c.drop_first() =~= Seq::<char>::empty());
            assert(byte_len(c) == char_width(c[0]) + byte_len(c.drop_first()));
        }
    }
}

// ---------------------------------------------------------------------------
// A long split is split again with the same settings
// ---------------------------------------------------------------------------

/// A split that is at least `cs` bytes long is split again with the
/// remaining separators and with the same chunk size and the same overlap.
/// A text whose first separator `sep` occurs in it only at its very end is
/// one such split (the whole text is its single split): its chunks are
/// exactly the chunks of the text under the remaining separators `rest`,
/// with the same `cs` and `ov`.
pub proof fn lemma_long_split_same_settings(
    text: Seq<char>,
    sep: Seq<char>,
    rest: Seq<Seq<char>>,
    cs: nat,
    ov: nat,
)
    requires
        sep.len() > 0,
        rest.len() > 0,
        sep.len() <= text.len(),
        text.subrange(text.len() - sep.len(), text.len() as int) == sep,
        forall|k: int| 0 <= k < text.len() - sep.len() ==> !crate::text::occurs_at(text, sep, k),
        !all_white(text),
        byte_len(text) >= cs,
    ensures
        split_chunks(text, seq![sep] + rest, cs, ov) == split_chunks(text, rest, cs, ov),
{
    let seps = seq![sep] + rest;
    let e = text.len() - sep.len();
    assert(crate::text::occurs_at(text, sep, e));
    assert(contains(text, sep));
    assert(seps[0] == sep);
    assert(seps.subrange(1, seps.len() as int) =~= rest);
    let chosen = choose_separator(text, seps);
    assert(chosen == (sep, rest));
    crate::text::lemma_find_from(text, sep, 0);
    assert(crate::text::find_from(text, sep, 0) == Some(e)) by {
        match crate::text::find_from(text, sep, 0) {
            Some(j) => {
                if j < e {
                    assert(!crate::text::occurs_at(text, sep, j));
                }
            },
            None => {
                assert(!crate::text::occurs_at(text, sep, e));
            },
        }
    }
    assert(crate::recursive_character_text_splitter::split_keep_from(text, sep, text.len() as int)
        =~= Seq::<Seq<char>>::empty());
    let pieces = split_pieces(text, sep);
    assert(text.subrange(0, text.len() as int) =~= text);
    assert(pieces =~= seq![text]);
    let em: Seq<Seq<char>> = Seq::empty();
    assert(split_chunks(text, seps, cs, ov) == fold_splits(pieces, 0, em, em, rest, cs, ov));
    assert(fold_splits(pieces, 0, em, em, rest, cs, ov) == fold_splits(
        pieces,
        1,
        em + split_chunks(text, rest, cs, ov),
        em,
        rest,
        cs,
        ov,
    ));
    assert(em + split_chunks(text, rest, cs, ov) =~= split_chunks(text, rest, cs, ov));
}

proof fn lemma_fold_gathers_short(
    pieces: Seq<Seq<char>>,
    j: int,
    next: Seq<Seq<char>>,
    cs: nat,
    ov: nat,
)
    requires
        0 <= j <= pieces.len(),
        pieces.len() > 0,
        forall|k: int| 0 <= k < pieces.len() ==> !all_white(#[trigger] pieces[k]) && byte_len(
            pieces[k],
        ) < cs,
    ensures
        fold_splits(pieces, j, Seq::empty(), pieces.take(j), next, cs, ov) == merge_spec(
            pieces,
            Seq::empty(),
            cs,
            ov,
        ),
    decreases pieces.len() - j,
{
    let e: Seq<Seq<char>> = Seq::empty();
    if j >= pieces.len() {
        assert(pieces.take(j) =~= pieces);
        assert(e + merge_spec(pieces, Seq::empty(), cs, ov) =~= merge_spec(pieces, Seq::empty(), cs, ov));
    } else {
        assert(!all_white(pieces[j]));
        assert(pieces.take(j).push(pieces[j]) =~= pieces.take(j + 1));
        lemma_fold_gathers_short(pieces, j + 1, next, cs, ov);
    }
}

/// When every split of a text is short (under `cs` bytes) and not blank,
/// the chunks of the text are exactly the merge of its splits, with the
/// same chunk size and overlap, at whatever depth of the recursion the text
/// is split.
pub proof fn lemma_short_splits_merged(text: Seq<char>, seps: Seq<Seq<char>>, cs: nat, ov: nat)
    requires
        text.len() > 0,
        forall|k: int|
            0 <= k < split_pieces(text, choose_separator(text, seps).0).len() ==> !all_white(
                #[trigger] split_pieces(text, choose_separator(text, seps).0)[k],
            ) && byte_len(split_pieces(text, choose_separator(text, seps).0)[k]) < cs,
    ensures
        split_chunks(text, seps, cs, ov) == merge_spec(
            split_pieces(text, choose_separator(text, seps).0),
            Seq::empty(),
            cs,
            ov,
        ),
{
    let chosen = choose_separator(text, seps);
    let pieces = split_pieces(text, chosen.0);
    lemma_split_pieces_flatten(text, chosen.0);
    if pieces.len() == 0 {
        assert(flatten(pieces) =~= Seq::<char>::empty());
    }
    let e: Seq<Seq<char>> = Seq::empty();
    assert(pieces.take(0) =~= e);
    lemma_fold_gathers_short(pieces, 0, chosen.1, cs, ov);
}

} // verus!
