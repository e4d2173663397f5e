//! The files of a directory walk that a language parses, and the segments of
//! several files joined in walk order.
use vstd::prelude::*;

verus! {

/// What `std::path::Path::extension` returns for `path`: the part of its
/// file name after the last `.`, when the file name has one that is not its
/// first character.
pub uninterp spec fn path_extension(path: Seq<char>) -> Option<Seq<char>>;

/// `Path::new(path).extension()`, as a string. The contract claims no more
/// than that the result is `path_extension` of the path; the rules of
/// `std::path` that decide it are not restated here.
#[verifier::external_body]
fn extension_of(path: &str) -> (r: Option<String>)
    ensures
        match r {
            Some(e) => path_extension(path@) == Some(e@),
            None => path_extension(path@) is None,
        },
{
    match std::path::Path::new(path).extension() {
        Some(e) => Some(e.to_string_lossy().into_owned()),
        None => None,
    }
}

/// The paths among `paths` whose extension is `extension`, in order.
pub open spec fn paths_with_extension(paths: Seq<Seq<char>>, extension: Seq<char>) -> Seq<
    Seq<char>,
>
    decreases paths.len(),
{
    if paths.len() == 0 {
        Seq::empty()
    } else {
        let rest = paths_with_extension(paths.drop_last(), extension);
        if path_extension(paths.last()) == Some(extension) {
            rest.push(paths.last())
        } else {
            rest
        }
    }
}

/// The paths among `paths` whose extension is `extension`, in their order.
pub fn select_files(paths: &[String], extension: &str) -> (r: Vec<String>)
    ensures
        r@.map_values(|s: String| s@) == paths_with_extension(
            paths@.map_values(|s: String| s@),
            extension@,
        ),
{
    let ghost all = paths@.map_values(|s: String| s@);
    let wanted = extension.to_owned();
    let mut selected: Vec<String> = Vec::new();
    let mut i: usize = 0;
    while i < paths.len()
        invariant
            0 <= i <= paths.len(),
            all == paths@.map_values(|s: String| s@),
            wanted@ == extension@,
            selected@.map_values(|s: String| s@) == paths_with_extension(
                all.take(i as int),
                extension@,
            ),
        decreases paths.len() - i,
    {
        let path = &paths[i];
        assert(all.take(i + 1).drop_last() =~= all.take(i as int));
        assert(all.take(i + 1).last() == path@);
        let keep = match extension_of(path.as_str()) {
            Some(e) => e == wanted,
            None => false,
        };
        if keep {
            let copy = path.clone();
            selected.push(copy);
            assert(selected@.map_values(|s: String| s@) =~= paths_with_extension(
                all.take(i as int),
                extension@,
            ).push(path@));
        }
        i = i + 1;
    }
    assert(all.take(paths.len() as int) =~= all);
    selected
}

/// The segments of all files, the files in order and each file's segments
/// in order.
pub fn join_file_segments(parts: Vec<Vec<String>>) -> (r: Vec<String>)
    ensures
        r@.map_values(|s: String| s@) == parts@.map_values(
            |v: Vec<String>| v@.map_values(|s: String| s@),
        ).flatten(),
{
    let ghost all = parts@.map_values(|v: Vec<String>| v@.map_values(|s: String| s@));
    let mut joined: Vec<String> = Vec::new();
    let mut i: usize = 0;
    while i < parts.len()
        invariant
            0 <= i <= parts.len(),
            all == parts@.map_values(|v: Vec<String>| v@.map_values(|s: String| s@)),
            joined@.map_values(|s: String| s@) == all.take(i as int).flatten(),
        decreases parts.len() - i,
    {
        let part = &parts[i];
        let ghost before = joined@.map_values(|s: String| s@);
        let mut k: usize = 0;
        while k < part.len()
            invariant
                0 <= k <= part.len(),
                i < parts.len(),
                all.len() == parts.len(),
                part == parts[i as int],
                joined@.map_values(|s: String| s@) == before + all[i as int].take(k as int),
                all[i as int] == part@.map_values(|s: String| s@),
            decreases part.len() - k,
        {
            let copy = part[k].clone();
            let ghost old_views = joined@.map_values(|s: String| s@);
            joined.push(copy);
            assert(joined@.map_values(|s: String| s@) =~= old_views.push(part[k as int]@));
            assert(all[i as int].take(k + 1) =~= all[i as int].take(k as int).push(part[k as int]@));
            assert(joined@.map_values(|s: String| s@) =~= before + all[i as int].take(k + 1));
            k = k + 1;
        }
        proof {
            assert(all[i as int].take(part.len() as int) =~= all[i as int]);
            assert(all.take(i + 1) =~= all.take(i as int).push(all[i as int]));
            all.take(i as int).lemma_flatten_push(all[i as int]);
        }
        i = i + 1;
    }
    assert(all.take(parts.len() as int) =~= all);
    joined
}

/// `paths_with_extension` keeps exactly the paths whose extension is
/// `extension`, in their order: it is the filter of `paths` by
/// `path_extension(p) == Some(extension)`. In particular every path of
/// `paths` with that extension is selected, and every selected path is one of
/// `paths` with that extension.
pub proof fn lemma_selected_paths(paths: Seq<Seq<char>>, extension: Seq<char>)
    ensures
        paths_with_extension(paths, extension) == paths.filter(
            |p: Seq<char>| path_extension(p) == Some(extension),
        ),
        forall|i: int|
            0 <= i < paths.len() && path_extension(paths[i]) == Some(extension) ==> paths_with_extension(
                paths,
                extension,
            ).contains(#[trigger] paths[i]),
        forall|p: Seq<char>|
            #[trigger] paths_with_extension(paths, extension).contains(p) ==> paths.contains(p)
                && path_extension(p) == Some(extension),
    decreases paths.len(),
{
    let pred = |p: Seq<char>| path_extension(p) == Some(extension);
    reveal(Seq::filter);
    if paths.len() > 0 {
        lemma_selected_paths(paths.drop_last(), extension);
    }
    assert(paths_with_extension(paths, extension) =~= paths.filter(pred));
    broadcast use vstd::seq_lib::group_filter_ensures;
    assert forall|i: int|
        0 <= i < paths.len() && path_extension(paths[i]) == Some(extension) implies paths_with_extension(
        paths,
        extension,
    ).contains(#[trigger] paths[i]) by {
        paths.lemma_filter_contains(pred, i);
    }
    assert forall|p: Seq<char>|
        #[trigger] paths_with_extension(paths, extension).contains(p) implies paths.contains(p)
            && path_extension(p) == Some(extension) by {
        paths.lemma_filter_contains_rev(pred, p);
        let f = paths.filter(pred);
        let i = choose|i: int| 0 <= i < f.len() && f[i] == p;
        paths.lemma_filter_pred(pred, i);
    }
}

} // verus!
