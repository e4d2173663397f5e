//! Recursive chunking of text by a list of separators, with a size limit and an
//! overlap between consecutive chunks.
use vstd::prelude::*;

use crate::text::{
    lemma_byte_len_is_utf8_len,
    chars_of, string_from_chars,
    is_all_white, lemma_flatten_push, occurs_at,
    byte_len_of, find_from_exec,
    all_white, byte_len, contains, find_from, flatten, lemma_byte_len_concat, lemma_find_from,
    lemma_flatten_concat,
};
use crate::CodeLanguage;

verus! {

/// The characters of each vector.
pub open spec fn views(v: Seq<Vec<char>>) -> Seq<Seq<char>> {
    v.map_values(|x: Vec<char>| x@)
}

// ---------------------------------------------------------------------------
// Splitting at one separator
// ---------------------------------------------------------------------------

/// The pieces of `text[start..]` when it is cut after every occurrence of
/// `sep` (found left to right, without overlap); each piece keeps the
/// separator that ends it, and a non-empty rest is the last piece.
pub open spec fn split_keep_from(text: Seq<char>, sep: Seq<char>, start: int) -> Seq<Seq<char>>
    decreases text.len() + 1 - start,
{
    if start < 0 || start >= text.len() {
        Seq::empty()
    } else {
        match find_from(text, sep, start) {
            Some(i) => if sep.len() > 0 && start <= i && i + sep.len() <= text.len() {
                seq![text.subrange(start, i + sep.len())] + split_keep_from(
                    text,
                    sep,
                    i + sep.len(),
                )
            } else {
                seq![text.subrange(start, text.len() as int)]
            },
            None => seq![text.subrange(start, text.len() as int)],
        }
    }
}

/// The splits of `text` at `sep`: single characters when `sep` is empty,
/// otherwise the pieces of `split_keep_from`.
pub open spec fn split_pieces(text: Seq<char>, sep: Seq<char>) -> Seq<Seq<char>> {
    if sep.len() == 0 {
        Seq::new(text.len(), |i: int| seq![text[i]])
    } else {
        split_keep_from(text, sep, 0)
    }
}

// ---------------------------------------------------------------------------
// Merging splits into chunks
// ---------------------------------------------------------------------------

/// `parts` joined with `sep` between consecutive parts (`[String]::join`).
pub open spec fn join(parts: Seq<Seq<char>>, sep: Seq<char>) -> Seq<char>
    decreases parts.len(),
{
    if parts.len() == 0 {
        Seq::empty()
    } else if parts.len() == 1 {
        parts[0]
    } else {
        join(parts.drop_last(), sep) + sep + parts.last()
    }
}

/// The window after dropping its first parts while it is longer than the
/// overlap, or while it and the `pending` bytes would not fit in `chunk_size`.
pub open spec fn shrink(
    doc: Seq<Seq<char>>,
    sep: Seq<char>,
    pending: nat,
    chunk_size: nat,
    chunk_overlap: nat,
) -> Seq<Seq<char>>
    decreases doc.len(),
{
    if doc.len() > 0 && (byte_len(join(doc, sep)) > chunk_overlap || byte_len(join(doc, sep))
        + pending > chunk_size) {
        shrink(doc.drop_first(), sep, pending, chunk_size, chunk_overlap)
    } else {
        doc
    }
}

/// Merging `splits[i..]`, given the chunks `merged` emitted so far and the
/// current window `doc`.
pub open spec fn merge_from(
    splits: Seq<Seq<char>>,
    i: int,
    merged: Seq<Seq<char>>,
    doc: Seq<Seq<char>>,
    sep: Seq<char>,
    chunk_size: nat,
    chunk_overlap: nat,
) -> Seq<Seq<char>>
    decreases splits.len() - i,
{
    if i < 0 || i >= splits.len() {
        if doc.len() > 0 {
            merged.push(join(doc, sep))
        } else {
            merged
        }
    } else {
        let split = splits[i];
        let add: nat = if doc.len() == 0 {
            0
        } else {
            byte_len(sep)
        };
        if byte_len(join(doc, sep)) + add + byte_len(split) > chunk_size && doc.len() > 0 {
            merge_from(
                splits,
                i + 1,
                merged.push(join(doc, sep)),
                shrink(doc, sep, add + byte_len(split), chunk_size, chunk_overlap).push(split),
                sep,
                chunk_size,
                chunk_overlap,
            )
        } else {
            merge_from(splits, i + 1, merged, doc.push(split), sep, chunk_size, chunk_overlap)
        }
    }
}

/// The chunks that merging `splits` with `sep` produces.
pub open spec fn merge_spec(
    splits: Seq<Seq<char>>,
    sep: Seq<char>,
    chunk_size: nat,
    chunk_overlap: nat,
) -> Seq<Seq<char>> {
    merge_from(splits, 0, Seq::empty(), Seq::empty(), sep, chunk_size, chunk_overlap)
}

/// Byte length of all parts, each counted with one separator.
pub open spec fn weight(parts: Seq<Seq<char>>, sep: Seq<char>) -> nat
    decreases parts.len(),
{
    if parts.len() == 0 {
        0
    } else {
        weight(parts.drop_last(), sep) + byte_len(parts.last()) + byte_len(sep)
    }
}

// ---------------------------------------------------------------------------
// The recursive split
// ---------------------------------------------------------------------------

/// The separator used for `text`, and the separators left for its long
/// splits, looking from `seps[i]` on.
pub open spec fn choose_from(text: Seq<char>, seps: Seq<Seq<char>>, i: int) -> (
    Seq<char>,
    Seq<Seq<char>>,
)
    decreases seps.len() - i,
{
    if i < 0 || i >= seps.len() {
        (
            if seps.len() == 0 {
                Seq::empty()
            } else {
                seps.last()
            },
            Seq::empty(),
        )
    } else if seps[i].len() == 0 {
        (seps[i], Seq::empty())
    } else if contains(text, seps[i]) {
        (seps[i], seps.subrange(i + 1, seps.len() as int))
    } else {
        choose_from(text, seps, i + 1)
    }
}

/// The separator used for `text`: the first separator that is empty or occurs
/// in `text` (or the last one), and the separators after it when it occurs.
pub open spec fn choose_separator(text: Seq<char>, seps: Seq<Seq<char>>) -> (
    Seq<char>,
    Seq<Seq<char>>,
) {
    choose_from(text, seps, 0)
}

pub proof fn lemma_choose_from_shorter(text: Seq<char>, seps: Seq<Seq<char>>, i: int)
    requires
        0 <= i,
    ensures
        choose_from(text, seps, i).1.len() == 0 || choose_from(text, seps, i).1.len() < seps.len(),
    decreases seps.len() - i,
{
    if i < seps.len() && seps[i].len() != 0 && !contains(text, seps[i]) {
        lemma_choose_from_shorter(text, seps, i + 1);
    }
}

/// Processing `splits[j..]` of a text, given the chunks emitted so far and
/// the short splits waiting to be merged.
pub open spec fn fold_splits(
    splits: Seq<Seq<char>>,
    j: int,
    finals: Seq<Seq<char>>,
    good: Seq<Seq<char>>,
    next: Seq<Seq<char>>,
    chunk_size: nat,
    chunk_overlap: nat,
) -> Seq<Seq<char>>
    decreases
            (if next.len() == 0 {
                0
            } else {
                next.len() + 1
            }),
            0int,
            splits.len() - j,
{
    if j < 0 || j >= splits.len() {
        if good.len() > 0 {
            finals + merge_spec(good, Seq::empty(), chunk_size, chunk_overlap)
        } else {
            finals
        }
    } else {
        let s = splits[j];
        if all_white(s) {
            fold_splits(splits, j + 1, finals, good, next, chunk_size, chunk_overlap)
        } else if byte_len(s) < chunk_size {
            fold_splits(splits, j + 1, finals, good.push(s), next, chunk_size, chunk_overlap)
        } else {
            let flushed = if good.len() > 0 {
                finals + merge_spec(good, Seq::empty(), chunk_size, chunk_overlap)
            } else {
                finals
            };
            if next.len() == 0 {
                fold_splits(
                    splits,
                    j + 1,
                    flushed.push(s),
                    Seq::empty(),
                    next,
                    chunk_size,
                    chunk_overlap,
                )
            } else {
                fold_splits(
                    splits,
                    j + 1,
                    flushed + split_chunks(s, next, chunk_size, chunk_overlap),
                    Seq::empty(),
                    next,
                    chunk_size,
                    chunk_overlap,
                )
            }
        }
    }
}

/// The chunks of `text`: it is split at its separator; whitespace-only
/// splits are dropped, splits shorter than `chunk_size` bytes are merged,
/// and longer ones are split again with the remaining separators (or kept
/// whole when none remain).
pub open spec fn split_chunks(
    text: Seq<char>,
    seps: Seq<Seq<char>>,
    chunk_size: nat,
    chunk_overlap: nat,
) -> Seq<Seq<char>>
    decreases seps.len(), 1int, 0int,
{
    if text.len() == 0 {
        Seq::empty()
    } else {
        let chosen = choose_separator(text, seps);
        proof {
            lemma_choose_from_shorter(text, seps, 0);
        }
        fold_splits(
            split_pieces(text, chosen.0),
            0,
            Seq::empty(),
            Seq::empty(),
            chosen.1,
            chunk_size,
            chunk_overlap,
        )
    }
}

// ---------------------------------------------------------------------------
// Lemmas on the definitions above
// ---------------------------------------------------------------------------

pub proof fn lemma_join_push(p: Seq<Seq<char>>, x: Seq<char>, sep: Seq<char>)
    ensures
        join(p.push(x), sep) == if p.len() == 0 {
            x
        } else {
            join(p, sep) + sep + x
        },
{
    assert(p.push(x).drop_last() =~= p);
}

pub proof fn lemma_join_first(p: Seq<Seq<char>>, sep: Seq<char>)
    requires
        p.len() >= 2,
    ensures
        join(p, sep) == p[0] + sep + join(p.drop_first(), sep),
    decreases p.len(),
{
    if p.len() == 2 {
        assert(p.drop_last() =~= seq![p[0]]);
        assert(p.drop_first() =~= seq![p[1]]);
        assert(join(p.drop_last(), sep) == p[0]);
        assert(join(p.drop_first(), sep) == p[1]);
        assert(join(p, sep) =~= p[0] + sep + join(p.drop_first(), sep));
    } else {
        let dl = p.drop_last();
        let df = p.drop_first();
        lemma_join_first(dl, sep);
        assert(dl.drop_first() =~= df.drop_last());
        assert(df.last() == p.last());
        assert(dl[0] == p[0]);
        assert(join(p, sep) == join(dl, sep) + sep + p.last());
        assert(join(df, sep) == join(df.drop_last(), sep) + sep + df.last());
        assert(join(p, sep) =~= p[0] + sep + join(p.drop_first(), sep));
    }
}

pub proof fn lemma_join_len_drop_first(p: Seq<Seq<char>>, sep: Seq<char>)
    requires
        p.len() >= 1,
    ensures
        byte_len(join(p, sep)) == byte_len(p[0]) + (if p.len() >= 2 {
            byte_len(sep)
        } else {
            0
        }) + byte_len(join(p.drop_first(), sep)),
{
    if p.len() >= 2 {
        lemma_join_first(p, sep);
        lemma_byte_len_concat(p[0] + sep, join(p.drop_first(), sep));
        lemma_byte_len_concat(p[0], sep);
    } else {
        assert(p.drop_first() =~= Seq::<Seq<char>>::empty());
        assert(byte_len(Seq::<char>::empty()) == 0);
    }
}

pub proof fn lemma_join_len_push(p: Seq<Seq<char>>, x: Seq<char>, sep: Seq<char>)
    ensures
        byte_len(join(p.push(x), sep)) == byte_len(join(p, sep)) + (if p.len() == 0 {
            0
        } else {
            byte_len(sep)
        }) + byte_len(x),
{
    lemma_join_push(p, x, sep);
    if p.len() == 0 {
        assert(byte_len(join(p, sep)) == 0);
    } else {
        lemma_byte_len_concat(join(p, sep) + sep, x);
        lemma_byte_len_concat(join(p, sep), sep);
    }
}

pub proof fn lemma_weight_push(p: Seq<Seq<char>>, x: Seq<char>, sep: Seq<char>)
    ensures
        weight(p.push(x), sep) == weight(p, sep) + byte_len(x) + byte_len(sep),
{
    assert(p.push(x).drop_last() =~= p);
}

pub proof fn lemma_weight_concat(a: Seq<Seq<char>>, b: Seq<Seq<char>>, sep: Seq<char>)
    ensures
        weight(a + b, sep) == weight(a, sep) + weight(b, sep),
    decreases b.len(),
{
    if b.len() == 0 {
        assert(a + b =~= a);
    } else {
        assert((a + b).drop_last() =~= a + b.drop_last());
        lemma_weight_concat(a, b.drop_last(), sep);
    }
}

pub proof fn lemma_weight_subrange(p: Seq<Seq<char>>, lo: int, hi: int, sep: Seq<char>)
    requires
        0 <= lo <= hi <= p.len(),
    ensures
        weight(p.subrange(lo, hi), sep) <= weight(p, sep),
{
    let a = p.subrange(0, lo);
    let b = p.subrange(lo, hi);
    let c = p.subrange(hi, p.len() as int);
    assert(p =~= a + b + c);
    lemma_weight_concat(a + b, c, sep);
    lemma_weight_concat(a, b, sep);
}

pub proof fn lemma_weight_join(p: Seq<Seq<char>>, sep: Seq<char>)
    requires
        p.len() >= 1,
    ensures
        byte_len(join(p, sep)) + byte_len(sep) == weight(p, sep),
    decreases p.len(),
{
    if p.len() == 1 {
        assert(p.drop_last() =~= Seq::<Seq<char>>::empty());
        assert(weight(p.drop_last(), sep) == 0);
        assert(p.last() == p[0]);
        assert(join(p, sep) == p[0]);
    } else {
        assert(join(p, sep) == join(p.drop_last(), sep) + sep + p.last());
        lemma_weight_join(p.drop_last(), sep);
        lemma_byte_len_concat(join(p.drop_last(), sep) + sep, p.last());
        lemma_byte_len_concat(join(p.drop_last(), sep), sep);
    }
}

/// The bytes of the window `all[lo..i]` with `all[i]` added, each part
/// counted with one separator, are at most those of all of `all`.
proof fn lemma_window_weight(all: Seq<Seq<char>>, lo: int, i: int, sep: Seq<char>)
    requires
        0 <= lo <= i < all.len(),
    ensures
        all.subrange(lo, i + 1) == all.subrange(lo, i).push(all[i]),
        weight(all.subrange(lo, i + 1), sep) == weight(all.subrange(lo, i), sep) + byte_len(all[i])
            + byte_len(sep),
        weight(all.subrange(lo, i + 1), sep) <= weight(all, sep),
        byte_len(all[i]) + byte_len(sep) <= weight(all, sep),
        lo < i ==> byte_len(join(all.subrange(lo, i), sep)) + byte_len(sep) == weight(
            all.subrange(lo, i),
            sep,
        ),
{
    assert(all.subrange(lo, i + 1) =~= all.subrange(lo, i).push(all[i]));
    lemma_weight_push(all.subrange(lo, i), all[i], sep);
    lemma_weight_subrange(all, i, i + 1, sep);
    assert(all.subrange(i, i + 1) =~= seq![all[i]]);
    assert(seq![all[i]].drop_last() =~= Seq::<Seq<char>>::empty());
    lemma_weight_subrange(all, lo, i + 1, sep);
    if lo < i {
        lemma_weight_join(all.subrange(lo, i), sep);
    }
}

pub proof fn lemma_weight_empty_sep(p: Seq<Seq<char>>)
    ensures
        weight(p, Seq::empty()) == byte_len(flatten(p)),
    decreases p.len(),
{
    if p.len() > 0 {
        lemma_weight_empty_sep(p.drop_last());
        lemma_byte_len_concat(flatten(p.drop_last()), p.last());
        assert(byte_len(Seq::<char>::empty()) == 0);
    }
}

pub proof fn lemma_split_keep_from_flatten(text: Seq<char>, sep: Seq<char>, start: int)
    requires
        0 <= start <= text.len(),
        sep.len() > 0,
    ensures
        flatten(split_keep_from(text, sep, start)) == text.subrange(start, text.len() as int),
        forall|k: int|
            0 <= k < split_keep_from(text, sep, start).len() ==> (#[trigger] split_keep_from(
                text,
                sep,
                start,
            )[k]).len() > 0,
    decreases text.len() + 1 - start,
{
    let r = split_keep_from(text, sep, start);
    if start >= text.len() {
        assert(flatten(r) =~= text.subrange(start, text.len() as int));
    } else {
        lemma_find_from(text, sep, start);
        match find_from(text, sep, start) {
            Some(i) => {
                let e = i + sep.len();
                lemma_split_keep_from_flatten(text, sep, e);
                let rest = split_keep_from(text, sep, e);
                lemma_flatten_concat(seq![text.subrange(start, e)], rest);
                assert(seq![text.subrange(start, e)].drop_last() =~= Seq::<Seq<char>>::empty());
                assert(flatten(Seq::<Seq<char>>::empty()) == Seq::<char>::empty());
                assert(flatten(seq![text.subrange(start, e)]) == flatten(
                    seq![text.subrange(start, e)].drop_last(),
                ) + seq![text.subrange(start, e)].last());
                assert(flatten(seq![text.subrange(start, e)]) =~= text.subrange(start, e));
                assert(r == seq![text.subrange(start, e)] + rest);
                assert(flatten(r) =~= text.subrange(start, text.len() as int));
            },
            None => {
                assert(r.drop_last() =~= Seq::<Seq<char>>::empty());
                assert(flatten(Seq::<Seq<char>>::empty()) == Seq::<char>::empty());
                assert(flatten(r) =~= text.subrange(start, text.len() as int));
            },
        }
    }
}

pub proof fn lemma_split_pieces_flatten(text: Seq<char>, sep: Seq<char>)
    ensures
        flatten(split_pieces(text, sep)) == text,
        forall|k: int|
            0 <= k < split_pieces(text, sep).len() ==> (#[trigger] split_pieces(text, sep)[k]).len()
                > 0,
{
    if sep.len() == 0 {
        lemma_flatten_singletons(text, text.len() as int);
        assert(Seq::new(text.len(), |i: int| seq![text[i]]).subrange(0, text.len() as int)
            =~= Seq::new(text.len(), |i: int| seq![text[i]]));
        assert(text.subrange(0, text.len() as int) =~= text);
    } else {
        lemma_split_keep_from_flatten(text, sep, 0);
        assert(text.subrange(0, text.len() as int) =~= text);
    }
}

proof fn lemma_flatten_singletons(text: Seq<char>, n: int)
    requires
        0 <= n <= text.len(),
    ensures
        flatten(Seq::new(text.len(), |i: int| seq![text[i]]).subrange(0, n)) == text.subrange(0, n),
    decreases n,
{
    let all = Seq::new(text.len(), |i: int| seq![text[i]]);
    if n == 0 {
        assert(text.subrange(0, 0) =~= Seq::<char>::empty());
    } else {
        lemma_flatten_singletons(text, n - 1);
        assert(all.subrange(0, n).drop_last() =~= all.subrange(0, n - 1));
        assert(text.subrange(0, n) =~= text.subrange(0, n - 1) + seq![text[n - 1]]);
    }
}

/// A piece of a concatenation is no longer than the concatenation.
pub proof fn lemma_piece_byte_len(pieces: Seq<Seq<char>>, k: int)
    requires
        0 <= k < pieces.len(),
    ensures
        byte_len(pieces[k]) <= byte_len(flatten(pieces)),
        pieces[k].len() <= flatten(pieces).len(),
{
    lemma_weight_empty_sep(pieces);
    lemma_weight_subrange(pieces, k, k + 1, Seq::empty());
    assert(pieces.subrange(k, k + 1).drop_last() =~= Seq::<Seq<char>>::empty());
    assert(byte_len(Seq::<char>::empty()) == 0);
    lemma_flatten_prefix_len(pieces, k);
}

proof fn lemma_flatten_prefix_len(pieces: Seq<Seq<char>>, k: int)
    requires
        0 <= k < pieces.len(),
    ensures
        pieces[k].len() <= flatten(pieces).len(),
    decreases pieces.len(),
{
    if k == pieces.len() - 1 {
    } else {
        lemma_flatten_prefix_len(pieces.drop_last(), k);
    }
}

// ---------------------------------------------------------------------------
// Executable helpers on character vectors
// ---------------------------------------------------------------------------

/// A copy of `text[from..to]`.
fn copy_range(text: &[char], from: usize, to: usize) -> (r: Vec<char>)
    requires
        from <= to <= text@.len(),
    ensures
        r@ == text@.subrange(from as int, to as int),
{
    let mut out: Vec<char> = Vec::new();
    let mut k = from;
    while k < to
        invariant
            from <= k <= to <= text@.len(),
            out@ == text@.subrange(from as int, k as int),
        decreases to - k,
    {
        out.push(text[k]);
        assert(text@.subrange(from as int, k + 1) =~= text@.subrange(from as int, k as int).push(
            text@[k as int],
        ));
        k = k + 1;
    }
    out
}

/// Appends the characters of `src` to `out`.
fn append_chars(out: &mut Vec<char>, src: &[char])
    ensures
        final(out)@ == old(out)@ + src@,
{
    let mut k: usize = 0;
    while k < src.len()
        invariant
            k <= src@.len(),
            out@ == old(out)@ + src@.take(k as int),
        decreases src@.len() - k,
    {
        out.push(src[k]);
        assert(src@.take(k + 1) =~= src@.take(k as int).push(src@[k as int]));
        k = k + 1;
    }
    assert(src@.take(src@.len() as int) =~= src@);
}

/// The parts joined with `sep` between consecutive parts.
fn join_chars(parts: &[Vec<char>], sep: &[char]) -> (r: Vec<char>)
    ensures
        r@ == join(views(parts@), sep@),
{
    if parts.len() == 0 {
        return Vec::new();
    }
    let mut out = copy_range(&parts[0], 0, parts[0].len());
    assert(out@ =~= parts@[0]@);
    assert(views(parts@).take(1) =~= seq![parts@[0]@]);
    let mut k: usize = 1;
    while k < parts.len()
        invariant
            1 <= k <= parts@.len(),
            out@ == join(views(parts@).take(k as int), sep@),
        decreases parts@.len() - k,
    {
        append_chars(&mut out, sep);
        append_chars(&mut out, &parts[k]);
        proof {
            let v = views(parts@);
            assert(v.take(k + 1) =~= v.take(k as int).push(v[k as int]));
            lemma_join_push(v.take(k as int), v[k as int], sep@);
        }
        k = k + 1;
    }
    assert(views(parts@).take(parts@.len() as int) =~= views(parts@));
    out
}

// ---------------------------------------------------------------------------
// The splitter
// ---------------------------------------------------------------------------

/// Splits text recursively by a list of separators into chunks of at most
/// `chunk_size` bytes (where the separators allow it), consecutive chunks
/// sharing up to `chunk_overlap` bytes.
#[derive(Debug)]
pub struct RecursiveCharacterTextSplitter {
    separators: Vec<String>,
    chunk_size: usize,
    chunk_overlap: usize,
    keep_separator: bool,
    _is_separator_regex: bool,
}

/// The separators used when none are given.
pub open spec fn default_separators() -> Seq<Seq<char>> {
    seq!["\n\n"@, "\n"@, " "@, ""@]
}

/// The separators of each language.
pub open spec fn language_separators(language: CodeLanguage) -> Seq<Seq<char>> {
    match language {
        CodeLanguage::Rust => seq![
            "\nfn "@,
            "\nconst "@,
            "\nlet "@,
            "\nif "@,
            "\nwhile "@,
            "\nfor "@,
            "\nloop "@,
            "\nmatch "@,
            "\n\n"@,
            "\n"@,
            " "@,
            ""@,
        ],
        CodeLanguage::C | CodeLanguage::Cpp => seq![
            "\nclass "@,
            "\nvoid "@,
            "\nint "@,
            "\nif "@,
            "\nfor "@,
            "\n\n"@,
            "\n"@,
            " "@,
            ""@,
        ],
        CodeLanguage::Python => seq!["\nclass "@, "\ndef "@, "\n\n"@, "\n"@, " "@, ""@],
        _ => default_separators(),
    }
}

/// The separators of each language, in the order they are tried: Rust
/// tries function, `const`, `let`, `if`, `while`, `for`, `loop` and `match`
/// starts of lines before blank lines, lines, words and characters; C and
/// C++ try `class`, `void`, `int`, `if` and `for` starts of lines; Python
/// tries `class` and then `def` starts of lines; every other language only
/// blank lines, lines, words and characters.
pub proof fn lemma_language_separators(language: CodeLanguage)
    ensures
        language == CodeLanguage::Rust ==> language_separators(language) == seq![
            "\nfn "@,
            "\nconst "@,
            "\nlet "@,
            "\nif "@,
            "\nwhile "@,
            "\nfor "@,
            "\nloop "@,
            "\nmatch "@,
            "\n\n"@,
            "\n"@,
            " "@,
            ""@,
        ],
        (language == CodeLanguage::C || language == CodeLanguage::Cpp) ==> language_separators(
            language,
        ) == seq![
            "\nclass "@,
            "\nvoid "@,
            "\nint "@,
            "\nif "@,
            "\nfor "@,
            "\n\n"@,
            "\n"@,
            " "@,
            ""@,
        ],
        language == CodeLanguage::Python ==> language_separators(language) == seq![
            "\nclass "@,
            "\ndef "@,
            "\n\n"@,
            "\n"@,
            " "@,
            ""@,
        ],
        !(language == CodeLanguage::Rust || language == CodeLanguage::C || language
            == CodeLanguage::Cpp || language == CodeLanguage::Python) ==> language_separators(
            language,
        ) == seq!["\n\n"@, "\n"@, " "@, ""@],
{
}

/// The characters of each string.
pub open spec fn string_views(v: Seq<String>) -> Seq<Seq<char>> {
    v.map_values(|s: String| s@)
}

impl RecursiveCharacterTextSplitter {
    #[verifier::type_invariant]
    spec fn inv(&self) -> bool {
        &&& self.keep_separator
        &&& !self._is_separator_regex
        &&& self.chunk_size >= 1
        &&& self.chunk_overlap <= self.chunk_size / 2
    }

    /// The separators, in the order in which they are tried.
    pub closed spec fn separators_spec(&self) -> Seq<Seq<char>> {
        string_views(self.separators@)
    }

    /// The largest size in bytes of a merged chunk.
    pub closed spec fn chunk_size_spec(&self) -> nat {
        self.chunk_size as nat
    }

    /// The chunk overlap in bytes: when merging emits a chunk, the splits
    /// kept for the next chunk are shrunk to at most this many bytes.
    pub closed spec fn chunk_overlap_spec(&self) -> nat {
        self.chunk_overlap as nat
    }

    /// A splitter with the given separators (by default paragraph, line,
    /// word and character breaks), a chunk size of at least one byte, and an
    /// overlap of at most half the requested chunk size.
    pub fn new(separators: Option<Vec<String>>, chunk_size: usize, chunk_overlap: usize) -> (r: Self)
        ensures
            r.separators_spec() == (match separators {
                Some(v) => string_views(v@),
                None => default_separators(),
            }),
            r.chunk_size_spec() == (if chunk_size == 0 {
                1
            } else {
                chunk_size
            }),
            r.chunk_overlap_spec() == (if chunk_overlap <= chunk_size / 2 {
                chunk_overlap
            } else {
                chunk_size / 2
            }),
    {
        let separators = match separators {
            Some(v) => v,
            None => {
                let v = vec![
                    "\n\n".to_string(),
                    "\n".to_string(),
                    " ".to_string(),
                    "".to_string(),
                ];
                assert(string_views(v@) =~= default_separators());
                v
            },
        };
        Self {
            separators,
            chunk_size: if chunk_size < 1 {
                1
            } else {
                chunk_size
            },
            chunk_overlap: if chunk_overlap <= chunk_size / 2 {
                chunk_overlap
            } else {
                chunk_size / 2
            },
            keep_separator: true,
            _is_separator_regex: false,
        }
    }

    /// The chunks of `text`.
    pub fn split_text(&self, text: &str) -> (r: Vec<String>)
        ensures
            string_views(r@) == split_chunks(
                text@,
                self.separators_spec(),
                self.chunk_size_spec(),
                self.chunk_overlap_spec(),
            ),
    {
        let byte_count = text.as_bytes().len();
        proof {
            lemma_byte_len_is_utf8_len(text@);
            assert(byte_count == byte_len(text@));
        }
        let chars = chars_of(text);
        let mut seps: Vec<Vec<char>> = Vec::new();
        let mut k: usize = 0;
        while k < self.separators.len()
            invariant
                k <= self.separators@.len(),
                views(seps@) == string_views(self.separators@).take(k as int),
            decreases self.separators@.len() - k,
        {
            let ghost before = views(seps@);
            seps.push(chars_of(self.separators[k].as_str()));
            assert(string_views(self.separators@).take(k + 1) =~= before.push(
                self.separators@[k as int]@,
            ));
            assert(views(seps@) =~= before.push(self.separators@[k as int]@));
            k = k + 1;
        }
        assert(string_views(self.separators@).take(self.separators@.len() as int) =~= string_views(
            self.separators@,
        ));
        let chunks = self._split_text(chars.as_slice(), seps.as_slice());
        let mut out: Vec<String> = Vec::new();
        let mut i: usize = 0;
        while i < chunks.len()
            invariant
                i <= chunks@.len(),
                string_views(out@) == views(chunks@).take(i as int),
            decreases chunks@.len() - i,
        {
            let ghost before = string_views(out@);
            out.push(string_from_chars(chunks[i].as_slice()));
            assert(views(chunks@).take(i + 1) =~= before.push(chunks@[i as int]@));
            assert(string_views(out@) =~= before.push(chunks@[i as int]@));
            i = i + 1;
        }
        assert(views(chunks@).take(chunks@.len() as int) =~= views(chunks@));
        out
    }

    /// A splitter with the separators of `language`, chunks of 1000 bytes and
    /// an overlap of 200 bytes.
    pub fn from_language(language: CodeLanguage) -> (r: Self)
        ensures
            r.separators_spec() == language_separators(language),
            r.chunk_size_spec() == 1000,
            r.chunk_overlap_spec() == 200,
    {
        let separators = Self::get_separators_for_language(language);
        Self::new(Some(separators), 1000, 200)
    }

    /// The separators of `language`.
    fn get_separators_for_language(language: CodeLanguage) -> (r: Vec<String>)
        ensures
            string_views(r@) == language_separators(language),
    {
        match language {
            CodeLanguage::Rust => {
                let v = vec![
                    "\nfn ".to_string(),
                    "\nconst ".to_string(),
                    "\nlet ".to_string(),
                    "\nif ".to_string(),
                    "\nwhile ".to_string(),
                    "\nfor ".to_string(),
                    "\nloop ".to_string(),
                    "\nmatch ".to_string(),
                    "\n\n".to_string(),
                    "\n".to_string(),
                    " ".to_string(),
                    "".to_string(),
                ];
                assert(string_views(v@) =~= language_separators(language));
                v
            },
            CodeLanguage::C | CodeLanguage::Cpp => {
                let v = vec![
                    "\nclass ".to_string(),
                    "\nvoid ".to_string(),
                    "\nint ".to_string(),
                    "\nif ".to_string(),
                    "\nfor ".to_string(),
                    "\n\n".to_string(),
                    "\n".to_string(),
                    " ".to_string(),
                    "".to_string(),
                ];
                assert(string_views(v@) =~= language_separators(language));
                v
            },
            CodeLanguage::Python => {
                let v = vec![
                    "\nclass ".to_string(),
                    "\ndef ".to_string(),
                    "\n\n".to_string(),
                    "\n".to_string(),
                    " ".to_string(),
                    "".to_string(),
                ];
                assert(string_views(v@) =~= language_separators(language));
                v
            },
            _ => {
                let v = vec![
                    "\n\n".to_string(),
                    "\n".to_string(),
                    " ".to_string(),
                    "".to_string(),
                ];
                assert(string_views(v@) =~= language_separators(language));
                v
            },
        }
    }

    /// The splits of `text` at `separator`, each keeping the separator that
    /// ends it; single characters when `separator` is empty.
    fn split_with_separator(&self, text: &[char], separator: &[char]) -> (r: Vec<Vec<char>>)
        ensures
            views(r@) == split_pieces(text@, separator@),
    {
        if separator.len() == 0 {
            let mut out: Vec<Vec<char>> = Vec::new();
            let mut i: usize = 0;
            while i < text.len()
                invariant
                    i <= text@.len(),
                    views(out@) =~= Seq::new(i as nat, |k: int| seq![text@[k]]),
                decreases text@.len() - i,
            {
                let mut one: Vec<char> = Vec::new();
                one.push(text[i]);
                let ghost before = views(out@);
                out.push(one);
                assert(one@ =~= seq![text@[i as int]]);
                assert(views(out@) =~= before.push(seq![text@[i as int]]));
                i = i + 1;
            }
            return out;
        }
        let mut splits: Vec<Vec<char>> = Vec::new();
        let mut start: usize = 0;
        let tl = text.len();
        assert(views(splits@) =~= Seq::<Seq<char>>::empty());
        loop
            invariant_except_break
                tl == text@.len(),
                start <= text@.len(),
                separator@.len() > 0,
                views(splits@) + split_keep_from(text@, separator@, start as int) == split_keep_from(
                    text@,
                    separator@,
                    0,
                ),
            ensures
                start <= text@.len(),
                find_from(text@, separator@, start as int) is None,
                views(splits@) + split_keep_from(text@, separator@, start as int) == split_keep_from(
                    text@,
                    separator@,
                    0,
                ),
            decreases text@.len() - start,
        {
            match find_from_exec(text, separator, start) {
                Some(idx) => {
                    proof {
                        lemma_find_from(text@, separator@, start as int);
                    }
                    let end = idx + separator.len();
                    let ghost before = views(splits@);
                    if end > start {
                        splits.push(copy_range(text, start, end));
                    }
                    proof {
                        assert(views(splits@) =~= before.push(text@.subrange(start as int, end as int)));
                        assert(split_keep_from(text@, separator@, start as int) == seq![
                            text@.subrange(start as int, end as int),
                        ] + split_keep_from(text@, separator@, end as int));
                        assert(views(splits@) + split_keep_from(text@, separator@, end as int)
                            =~= before + split_keep_from(text@, separator@, start as int));
                    }
                    start = end;
                },
                None => {
                    break ;
                },
            }
        }
        let ghost before = views(splits@);
        if start < text.len() {
            splits.push(copy_range(text, start, text.len()));
            assert(views(splits@) =~= before.push(text@.subrange(start as int, text@.len() as int)));
        } else {
            assert(split_keep_from(text@, separator@, start as int) =~= Seq::<Seq<char>>::empty());
        }
        splits
    }

    /// The chunks that merging `splits` (joined with `separator`) produces.
    fn merge_splits(&self, splits: &[Vec<char>], separator: &[char]) -> (r: Vec<Vec<char>>)
        requires
            weight(views(splits@), separator@) <= usize::MAX,
            byte_len(separator@) <= usize::MAX,
        ensures
            views(r@) == merge_spec(
                views(splits@),
                separator@,
                self.chunk_size as nat,
                self.chunk_overlap as nat,
            ),
    {
        let ghost all = views(splits@);
        let ghost sep = separator@;
        let ghost cs = self.chunk_size as nat;
        let ghost ov = self.chunk_overlap as nat;
        let mut merged: Vec<Vec<char>> = Vec::new();
        let mut current_doc: Vec<Vec<char>> = Vec::new();
        let mut current_len: usize = 0;
        let separator_len = byte_len_of(separator);
        let ghost mut lo: int = 0;
        assert(views(merged@) =~= Seq::<Seq<char>>::empty());
        assert(views(current_doc@) =~= Seq::<Seq<char>>::empty());
        assert(all.subrange(0, 0) =~= Seq::<Seq<char>>::empty());
        let mut i: usize = 0;
        while i < splits.len()
            invariant
                i <= all.len(),
                all == views(splits@),
                sep == separator@,
                cs == self.chunk_size,
                ov == self.chunk_overlap,
                separator_len == byte_len(sep),
                weight(all, sep) <= usize::MAX,
                0 <= lo <= i,
                views(current_doc@) == all.subrange(lo, i as int),
                current_len == byte_len(join(views(current_doc@), sep)),
                merge_from(all, 0, Seq::empty(), Seq::empty(), sep, cs, ov) == merge_from(
                    all,
                    i as int,
                    views(merged@),
                    views(current_doc@),
                    sep,
                    cs,
                    ov,
                ),
            decreases all.len() - i,
        {
            let split = &splits[i];
            proof {
                assert(all[i as int] == splits@[i as int]@);
                lemma_window_weight(all, lo, i as int, sep);
            }
            let split_len = byte_len_of(split);
            let additional_sep_len = if current_doc.len() == 0 {
                0
            } else {
                separator_len
            };
            let next_len = current_len + additional_sep_len + split_len;
            let ghost doc0 = views(current_doc@);
            let ghost merged0 = views(merged@);
            let ghost pending = (byte_len(sep) + byte_len(all[i as int])) as nat;
            let ghost flushed = next_len > self.chunk_size && current_doc.len() > 0;
            if next_len > self.chunk_size && current_doc.len() > 0 {
                merged.push(join_chars(current_doc.as_slice(), separator));
                assert(views(merged@) =~= merged0.push(join(doc0, sep)));
                while current_doc.len() > 0 && (current_len > self.chunk_overlap || current_len
                    + additional_sep_len + split_len > self.chunk_size)
                    invariant
                        all == views(splits@),
                        i < all.len(),
                        split@ == all[i as int],
                        split_len == byte_len(all[i as int]),
                        additional_sep_len == byte_len(sep),
                        separator_len == byte_len(sep),
                        sep == separator@,
                        cs == self.chunk_size,
                        ov == self.chunk_overlap,
                        weight(all, sep) <= usize::MAX,
                        0 <= lo <= i,
                        views(current_doc@) == all.subrange(lo, i as int),
                        current_len == byte_len(join(views(current_doc@), sep)),
                        current_doc@.len() > 0 ==> current_len + additional_sep_len + split_len
                            <= usize::MAX,
                        shrink(doc0, sep, (byte_len(sep) + byte_len(all[i as int])) as nat, cs, ov)
                            == shrink(
                            views(current_doc@),
                            sep,
                            (byte_len(sep) + byte_len(all[i as int])) as nat,
                            cs,
                            ov,
                        ),
                    decreases current_doc@.len(),
                {
                    proof {
                        lemma_window_weight(all, lo, i as int, sep);
                        lemma_join_len_drop_first(views(current_doc@), sep);
                        assert(views(current_doc@)[0] == current_doc@[0]@);
                    }
                    let removed_len = byte_len_of(&current_doc[0]);
                    let ghost before = views(current_doc@);
                    current_doc.remove(0);
                    assert(views(current_doc@) =~= before.drop_first());
                    current_len = current_len.saturating_sub(removed_len);
                    if current_doc.len() > 0 {
                        current_len = current_len.saturating_sub(separator_len);
                    }
                    proof {
                        lo = lo + 1;
                        assert(all.subrange(lo, i as int) =~= before.drop_first());
                        lemma_window_weight(all, lo, i as int, sep);
                    }
                }
            }
            proof {
                lemma_window_weight(all, lo, i as int, sep);
                lemma_join_len_push(views(current_doc@), all[i as int], sep);
            }
            proof {
                if flushed {
                    assert(shrink(views(current_doc@), sep, pending, cs, ov) == views(current_doc@));
                    assert(views(current_doc@) == shrink(doc0, sep, pending, cs, ov));
                } else {
                    assert(views(current_doc@) == doc0);
                    assert(views(merged@) == merged0);
                }
            }
            if current_doc.len() > 0 {
                current_len = current_len + separator_len;
            }
            let ghost doc1 = views(current_doc@);
            current_doc.push(copy_range(split, 0, split.len()));
            current_len = current_len + split_len;
            proof {
                assert(split@.subrange(0, split@.len() as int) =~= split@);
                assert(views(current_doc@) =~= doc1.push(all[i as int]));
                assert(all.subrange(lo, i + 1) =~= all.subrange(lo, i as int).push(all[i as int]));
                assert(merge_from(all, i as int, merged0, doc0, sep, cs, ov) == merge_from(
                    all,
                    i + 1,
                    views(merged@),
                    views(current_doc@),
                    sep,
                    cs,
                    ov,
                ));
            }
            i = i + 1;
        }
        if current_doc.len() > 0 {
            merged.push(join_chars(current_doc.as_slice(), separator));
        }
        merged
    }

    /// The chunks of `text` under `separators`.
    fn _split_text(&self, text: &[char], separators: &[Vec<char>]) -> (r: Vec<Vec<char>>)
        requires
            byte_len(text@) <= usize::MAX,
        ensures
            views(r@) == split_chunks(
                text@,
                views(separators@),
                self.chunk_size as nat,
                self.chunk_overlap as nat,
            ),
        decreases separators@.len(),
    {
        proof {
            use_type_invariant(self);
        }
        let ghost seps = views(separators@);
        let ghost cs = self.chunk_size as nat;
        let ghost ov = self.chunk_overlap as nat;
        if text.len() == 0 {
            let empty: Vec<Vec<char>> = Vec::new();
            assert(views(empty@) =~= Seq::<Seq<char>>::empty());
            return empty;
        }
        let mut final_chunks: Vec<Vec<char>> = Vec::new();
        let mut separator: Vec<char> = if separators.len() > 0 {
            copy_range(&separators[separators.len() - 1], 0, separators[separators.len() - 1].len())
        } else {
            Vec::new()
        };
        proof {
            if separators@.len() > 0 {
                let last = separators@[separators@.len() - 1]@;
                assert(last.subrange(0, last.len() as int) =~= last);
                assert(seps.last() == last);
            }
        }
        let mut new_separators: Vec<Vec<char>> = Vec::new();
        let mut i: usize = 0;
        while i < separators.len()
            invariant_except_break
                seps == views(separators@),
                i <= seps.len(),
                choose_separator(text@, seps) == choose_from(text@, seps, i as int),
                separator@ == (if seps.len() == 0 {
                    Seq::<char>::empty()
                } else {
                    seps.last()
                }),
                new_separators@.len() == 0,
            ensures
                choose_separator(text@, seps) == (separator@, views(new_separators@)),
            decreases seps.len() - i,
        {
            let s = &separators[i];
            assert(s@ == seps[i as int]);
            if s.len() == 0 {
                separator = copy_range(s, 0, s.len());
                assert(separator@ =~= seps[i as int]);
                assert(views(new_separators@) =~= Seq::<Seq<char>>::empty());
                break ;
            }
            if find_from_exec(text, s, 0).is_some() {
                proof {
                    lemma_find_from(text@, s@, 0);
                }
                separator = copy_range(s, 0, s.len());
                new_separators = copy_separators(separators, i + 1);
                assert(separator@ =~= seps[i as int]);
                assert(views(new_separators@) =~= seps.subrange(i + 1, seps.len() as int));
                break ;
            }
            proof {
                lemma_find_from(text@, s@, 0);
                if contains(text@, s@) {
                    let k = choose|k: int| occurs_at(text@, s@, k);
                    assert(occurs_at(text@, s@, k));
                }
            }
            i = i + 1;
        }
        let ghost next = views(new_separators@);
        let splits = self.split_with_separator(text, separator.as_slice());
        let ghost all = views(splits@);
        proof {
            lemma_split_pieces_flatten(text@, separator@);
            assert(all.take(0) =~= Seq::<Seq<char>>::empty());
            assert(flatten(Seq::<Seq<char>>::empty()) == Seq::<char>::empty());
            assert(byte_len(Seq::<char>::empty()) == 0);
            lemma_choose_from_shorter(text@, seps, 0);
        }
        let mut good_splits: Vec<Vec<char>> = Vec::new();
        let sep: Vec<char> = if self.keep_separator {
            Vec::new()
        } else {
            copy_range(&separator, 0, separator.len())
        };
        assert(sep@ =~= Seq::<char>::empty());
        assert(views(final_chunks@) =~= Seq::<Seq<char>>::empty());
        assert(views(good_splits@) =~= Seq::<Seq<char>>::empty());
        let mut j: usize = 0;
        while j < splits.len()
            invariant
                all == views(splits@),
                j <= all.len(),
                flatten(all) == text@,
                byte_len(text@) <= usize::MAX,
                sep@ == Seq::<char>::empty(),
                next == views(new_separators@),
                next.len() == 0 || next.len() < separators@.len(),
                cs == self.chunk_size,
                ov == self.chunk_overlap,
                weight(views(good_splits@), Seq::empty()) <= byte_len(flatten(all.take(j as int))),
                fold_splits(all, 0, Seq::empty(), Seq::empty(), next, cs, ov) == fold_splits(
                    all,
                    j as int,
                    views(final_chunks@),
                    views(good_splits@),
                    next,
                    cs,
                    ov,
                ),
            decreases all.len() - j,
        {
            let s = &splits[j];
            proof {
                assert(s@ == all[j as int]);
                lemma_piece_byte_len(all, j as int);
                assert(all.take(j + 1) =~= all.take(j as int).push(all[j as int]));
                lemma_flatten_push(all.take(j as int), all[j as int]);
                lemma_byte_len_concat(flatten(all.take(j as int)), all[j as int]);
                assert(all =~= all.take(j as int) + all.skip(j as int));
                lemma_flatten_concat(all.take(j as int), all.skip(j as int));
                lemma_byte_len_concat(flatten(all.take(j as int)), flatten(all.skip(j as int)));
            }
            let ghost finals0 = views(final_chunks@);
            let ghost good0 = views(good_splits@);
            if is_all_white(s) {
            } else if byte_len_of(s) < self.chunk_size {
                good_splits.push(copy_range(s, 0, s.len()));
                proof {
                    assert(s@.subrange(0, s@.len() as int) =~= s@);
                    assert(views(good_splits@) =~= good0.push(all[j as int]));
                    lemma_weight_push(good0, all[j as int], Seq::empty());
                    assert(byte_len(Seq::<char>::empty()) == 0);
                }
            } else {
                if good_splits.len() > 0 {
                    proof {
                        lemma_weight_empty_sep(Seq::<Seq<char>>::empty());
                    }
                    let mut merged = self.merge_splits(good_splits.as_slice(), sep.as_slice());
                    let ghost m = views(merged@);
                    final_chunks.append(&mut merged);
                    good_splits.clear();
                    assert(views(final_chunks@) =~= finals0 + m);
                }
                let ghost flushed = views(final_chunks@);
                if new_separators.len() == 0 {
                    final_chunks.push(copy_range(s, 0, s.len()));
                    assert(s@.subrange(0, s@.len() as int) =~= s@);
                    assert(views(final_chunks@) =~= flushed.push(all[j as int]));
                } else {
                    let mut other = self._split_text(s, new_separators.as_slice());
                    let ghost o = views(other@);
                    final_chunks.append(&mut other);
                    assert(views(final_chunks@) =~= flushed + o);
                }
                assert(views(good_splits@) =~= Seq::<Seq<char>>::empty());
            }
            j = j + 1;
        }
        if good_splits.len() > 0 {
            proof {
                assert(all.take(all.len() as int) =~= all);
            }
            let ghost finals0 = views(final_chunks@);
            let mut merged = self.merge_splits(good_splits.as_slice(), sep.as_slice());
            let ghost m = views(merged@);
            final_chunks.append(&mut merged);
            assert(views(final_chunks@) =~= finals0 + m);
        }
        final_chunks
    }
}

/// Copies of `separators[from..]`.
fn copy_separators(separators: &[Vec<char>], from: usize) -> (r: Vec<Vec<char>>)
    requires
        from <= separators@.len(),
    ensures
        views(r@) == views(separators@).subrange(from as int, separators@.len() as int),
{
    let mut out: Vec<Vec<char>> = Vec::new();
    let mut k = from;
    while k < separators.len()
        invariant
            from <= k <= separators@.len(),
            views(out@) == views(separators@).subrange(from as int, k as int),
        decreases separators@.len() - k,
    {
        let ghost before = views(out@);
        out.push(copy_range(&separators[k], 0, separators[k].len()));
        proof {
            let sk = separators@[k as int]@;
            assert(sk.subrange(0, sk.len() as int) =~= sk);
            assert(views(out@) =~= before.push(sk));
            assert(views(separators@).subrange(from as int, k + 1) =~= views(separators@).subrange(
                from as int,
                k as int,
            ).push(sk));
        }
        k = k + 1;
    }
    out
}

} // verus!
