//! When a text is split into single characters, the splitter slides a window
//! of `chunk_size` characters over it, each window overlapping the one before
//! by `chunk_overlap` characters.
use vstd::prelude::*;

use crate::recursive_character_text_splitter::{
    choose_from, choose_separator, fold_splits, join, merge_from, merge_spec, shrink, split_chunks,
    split_pieces,
};
use crate::text::{all_white, byte_len, char_width, is_white_space};

verus! {

/// The windows of `text` for a chunk size `cs` and an overlap `ov`: the
/// first `cs` characters, then the windows of the text after its first
/// `cs - ov` characters, until what is left fits in one window.
pub open spec fn windows(text: Seq<char>, cs: nat, ov: nat) -> Seq<Seq<char>>
    decreases text.len(),
{
    if text.len() == 0 {
        Seq::empty()
    } else if text.len() <= cs || cs <= ov {
        seq![text]
    } else {
        seq![text.take(cs as int)] + windows(text.skip(cs - ov), cs, ov)
    }
}

/// Every character of `text` is one byte long and not whitespace.
pub open spec fn plain_ascii(text: Seq<char>) -> bool {
    forall|i: int| 0 <= i < text.len() ==> char_width(#[trigger] text[i]) == 1 && !is_white_space(
        text[i],
    )
}

/// The characters of `x`, each as a piece of its own.
spec fn char_pieces(x: Seq<char>) -> Seq<Seq<char>> {
    Seq::new(x.len(), |k: int| seq![x[k]])
}

proof fn lemma_join_char_pieces(x: Seq<char>)
    ensures
        join(char_pieces(x), Seq::empty()) == x,
    decreases x.len(),
{
    let p = char_pieces(x);
    if x.len() == 1 {
        assert(p[0] =~= x);
    } else if x.len() > 1 {
        lemma_join_char_pieces(x.drop_last());
        assert(p.drop_last() =~= char_pieces(x.drop_last()));
        assert(x =~= x.drop_last() + Seq::<char>::empty() + p.last());
    }
}

proof fn lemma_byte_len_ascii(x: Seq<char>)
    requires
        forall|i: int| 0 <= i < x.len() ==> char_width(#[trigger] x[i]) == 1,
    ensures
        byte_len(x) == x.len(),
    decreases x.len(),
{
    if x.len() > 0 {
        assert(char_width(x[0]) == 1);
        lemma_byte_len_ascii(x.drop_first());
    }
}

/// Shrinking a window of single characters that is at least `ov` long keeps
/// its last `ov` characters.
proof fn lemma_shrink_char_pieces(x: Seq<char>, cs: nat, ov: nat)
    requires
        forall|i: int| 0 <= i < x.len() ==> char_width(#[trigger] x[i]) == 1,
        ov + 1 <= cs,
        ov <= x.len(),
    ensures
        shrink(char_pieces(x), Seq::empty(), 1, cs, ov) == char_pieces(x.skip(x.len() - ov)),
    decreases x.len(),
{
    let p = char_pieces(x);
    lemma_join_char_pieces(x);
    lemma_byte_len_ascii(x);
    if x.len() > ov {
        let rest = x.drop_first();
        assert(p.drop_first() =~= char_pieces(rest));
        lemma_shrink_char_pieces(rest, cs, ov);
        assert(rest.skip(rest.len() - ov) =~= x.skip(x.len() - ov));
    } else {
        assert(x.skip(0) =~= x);
    }
}

/// Merging the single characters of `text` from index `i` on, with the
/// window `text[s..i]` open, gives the windows of `text[s..]`.
proof fn lemma_merge_char_windows(
    text: Seq<char>,
    s: int,
    i: int,
    merged: Seq<Seq<char>>,
    cs: nat,
    ov: nat,
)
    requires
        plain_ascii(text),
        1 <= cs,
        ov <= cs / 2,
        0 <= s <= i <= text.len(),
        s < text.len(),
        i - s <= cs,
    ensures
        merge_from(
            char_pieces(text),
            i,
            merged,
            char_pieces(text.subrange(s, i)),
            Seq::empty(),
            cs,
            ov,
        ) == merged + windows(text.skip(s), cs, ov),
    decreases text.len() - i,
{
    let splits = char_pieces(text);
    let sep: Seq<char> = Seq::empty();
    let doc = char_pieces(text.subrange(s, i));
    let rest = text.skip(s);
    lemma_join_char_pieces(text.subrange(s, i));
    lemma_byte_len_ascii(text.subrange(s, i));
    if i >= text.len() {
        assert(doc.len() > 0);
        assert(text.subrange(s, i) =~= rest);
        assert(windows(rest, cs, ov) == seq![rest]);
        assert(merged.push(rest) =~= merged + seq![rest]);
    } else {
        let split = splits[i];
        assert(split =~= seq![text[i]]);
        assert(byte_len(split) == 1) by {
            lemma_byte_len_ascii(split);
        }
        assert(byte_len(sep) == 0);
        if i - s == cs {
            let window = text.subrange(s, i);
            let step = cs - ov;
            assert(doc.len() > 0);
            let m2 = merged.push(join(doc, sep));
            lemma_shrink_char_pieces(window, cs, ov);
            assert(window.skip(window.len() - ov) =~= text.subrange(s + step, i));
            let d2 = shrink(doc, sep, 1, cs, ov).push(split);
            assert(d2 =~= char_pieces(text.subrange(s + step, i + 1)));
            assert(merge_from(splits, i, merged, doc, sep, cs, ov) == merge_from(
                splits,
                i + 1,
                m2,
                d2,
                sep,
                cs,
                ov,
            ));
            lemma_merge_char_windows(text, s + step, i + 1, m2, cs, ov);
            assert(rest.len() > cs);
            assert(rest.take(cs as int) =~= window);
            assert(rest.skip(step) =~= text.skip(s + step));
            assert(windows(rest, cs, ov) == seq![window] + windows(text.skip(s + step), cs, ov));
            assert(m2 + windows(text.skip(s + step), cs, ov) =~= merged + (seq![window] + windows(
                text.skip(s + step),
                cs,
                ov,
            )));
        } else {
            let d2 = doc.push(split);
            assert(d2 =~= char_pieces(text.subrange(s, i + 1)));
            assert(merge_from(splits, i, merged, doc, sep, cs, ov) == merge_from(
                splits,
                i + 1,
                merged,
                d2,
                sep,
                cs,
                ov,
            ));
            lemma_merge_char_windows(text, s, i + 1, merged, cs, ov);
        }
    }
}

/// With windows of one character, the windows are the single characters.
proof fn lemma_windows_of_one(text: Seq<char>)
    ensures
        windows(text, 1, 0) == char_pieces(text),
    decreases text.len(),
{
    if text.len() == 1 {
        assert(seq![text[0]] =~= text);
        assert(char_pieces(text) =~= seq![text]);
    } else if text.len() > 1 {
        lemma_windows_of_one(text.skip(1));
        assert(text.take(1) =~= seq![text[0]]);
        assert(char_pieces(text) =~= seq![text.take(1)] + char_pieces(text.skip(1)));
    } else {
        assert(char_pieces(text) =~= Seq::<Seq<char>>::empty());
    }
}

/// Every single character becomes a short split waiting to be merged.
proof fn lemma_fold_gathers(text: Seq<char>, j: int, cs: nat, ov: nat)
    requires
        plain_ascii(text),
        2 <= cs,
        0 <= j <= text.len(),
    ensures
        fold_splits(char_pieces(text), j, Seq::empty(), char_pieces(text).take(j), Seq::empty(), cs, ov)
            == if text.len() > 0 {
            merge_spec(char_pieces(text), Seq::empty(), cs, ov)
        } else {
            Seq::<Seq<char>>::empty()
        },
    decreases text.len() - j,
{
    let p = char_pieces(text);
    let e: Seq<Seq<char>> = Seq::empty();
    if j >= text.len() {
        assert(p.take(j) =~= p);
        if text.len() > 0 {
            assert(e + merge_spec(p, Seq::empty(), cs, ov) =~= merge_spec(p, Seq::empty(), cs, ov));
        }
    } else {
        let s = p[j];
        assert(s =~= seq![text[j]]);
        assert(!all_white(s)) by {
            assert(!is_white_space(s[0]));
        }
        lemma_byte_len_ascii(s);
        assert(p.take(j).push(s) =~= p.take(j + 1));
        lemma_fold_gathers(text, j + 1, cs, ov);
    }
}

/// With windows of one character, every character is emitted by itself.
proof fn lemma_fold_singles(text: Seq<char>, j: int, ov: nat)
    requires
        plain_ascii(text),
        0 <= j <= text.len(),
    ensures
        fold_splits(char_pieces(text), j, char_pieces(text).take(j), Seq::empty(), Seq::empty(), 1, ov)
            == char_pieces(text),
    decreases text.len() - j,
{
    let p = char_pieces(text);
    if j >= text.len() {
        assert(p.take(j) =~= p);
    } else {
        let s = p[j];
        assert(s =~= seq![text[j]]);
        assert(!all_white(s)) by {
            assert(!is_white_space(s[0]));
        }
        lemma_byte_len_ascii(s);
        assert(p.take(j).push(s) =~= p.take(j + 1));
        lemma_fold_singles(text, j + 1, ov);
    }
}

proof fn lemma_empty_separator_is_last(text: Seq<char>, seps: Seq<Seq<char>>, i: int)
    requires
        0 <= i,
        choose_from(text, seps, i).0.len() == 0,
    ensures
        choose_from(text, seps, i).1.len() == 0,
    decreases seps.len() - i,
{
    if i < seps.len() && seps[i].len() != 0 && !crate::text::contains(text, seps[i]) {
        lemma_empty_separator_is_last(text, seps, i + 1);
    }
}

/// When a text of one-byte, non-whitespace characters is split into single
/// characters (its separator is the empty one), its chunks are the windows
/// of `chunk_size` characters that start every `chunk_size - chunk_overlap`
/// characters, the last one ending with the text: consecutive chunks share
/// `chunk_overlap` characters, and the chunks rebuild the text.
pub proof fn lemma_character_mode_windows(text: Seq<char>, seps: Seq<Seq<char>>, cs: nat, ov: nat)
    requires
        choose_separator(text, seps).0.len() == 0,
        plain_ascii(text),
        1 <= cs,
        ov <= cs / 2,
    ensures
        split_chunks(text, seps, cs, ov) == windows(text, cs, ov),
{
    if text.len() > 0 {
        let chosen = choose_separator(text, seps);
        lemma_empty_separator_is_last(text, seps, 0);
        let p = split_pieces(text, chosen.0);
        assert(p =~= char_pieces(text));
        let e: Seq<Seq<char>> = Seq::empty();
        assert(split_chunks(text, seps, cs, ov) == fold_splits(p, 0, e, e, chosen.1, cs, ov));
        assert(chosen.1 =~= e);
        assert(p.take(0) =~= e);
        if cs == 1 {
            lemma_fold_singles(text, 0, ov);
            lemma_windows_of_one(text);
        } else {
            lemma_fold_gathers(text, 0, cs, ov);
            assert(text.subrange(0, 0) =~= Seq::<char>::empty());
            assert(char_pieces(Seq::<char>::empty()) =~= e);
            lemma_merge_char_windows(text, 0, 0, e, cs, ov);
            assert(text.skip(0) =~= text);
            assert(e + windows(text, cs, ov) =~= windows(text, cs, ov));
        }
    }
}

} // verus!
