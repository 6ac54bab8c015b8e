//! Relative paths from one file of a mirrored site to another.

use vstd::prelude::*;
use crate::cli::optional_text;
use crate::paths::{
    all_names, get_file_path, is_name, lemma_site_path_lies_below, segments, site_path, FilePath,
};
use crate::text::{join, non_empty, split, split_undoes_join};
use crate::weburl::{is_same_domain, UrlModel, WebUrl};

verus! {

/// Whether a path is relative and every component is a name.
pub open spec fn is_plain(path: Seq<char>) -> bool {
    !(path.len() > 0 && path[0] == '/') && all_names(segments(path))
}

/// The number of components that two paths begin with in common.
pub open spec fn common_prefix(a: Seq<Seq<char>>, b: Seq<Seq<char>>) -> nat
    decreases a.len(),
{
    if a.len() > 0 && b.len() > 0 && a[0] == b[0] {
        1 + common_prefix(a.drop_first(), b.drop_first())
    } else {
        0
    }
}

/// `count` steps to the directory above.
pub open spec fn steps_up(count: nat) -> Seq<Seq<char>> {
    Seq::new(count, |i: int| ".."@)
}

/// The steps from the directory `base` to `target`: up to the last directory in common, and
/// down from there.
pub open spec fn steps_between(target: Seq<Seq<char>>, base: Seq<Seq<char>>) -> Seq<Seq<char>> {
    let shared = common_prefix(target, base);
    steps_up((base.len() - shared) as nat) + target.skip(shared as int)
}

/// Where steps lead from a directory.
pub open spec fn walk(dir: Seq<Seq<char>>, steps: Seq<Seq<char>>) -> Seq<Seq<char>>
    decreases steps.len(),
{
    if steps.len() == 0 {
        dir
    } else {
        let before = walk(dir, steps.drop_last());
        if steps.last() != ".."@ {
            before.push(steps.last())
        } else if before.len() > 0 {
            before.drop_last()
        } else {
            before
        }
    }
}

/// What `pathdiff::diff_paths` gives for a path and a base directory.
pub uninterp spec fn path_difference(target: Seq<char>, base: Seq<char>) -> Option<Seq<char>>;

/// Calls `pathdiff::diff_paths`, and turns the path into text. Claimed of it, on a system
/// whose paths are written with `/`: the result is what [`path_difference`] names, a function
/// of the two texts alone; and where both are relative paths made of names, it is a path: one
/// `..` for each component of the base behind those that both begin with, and the target's
/// components behind those.
#[verifier::external_body]
pub(crate) fn diff_paths(target: &str, base: &str) -> (r: Option<String>)
    ensures
        optional_text(r) == path_difference(target@, base@),
        is_plain(target@) && is_plain(base@) ==> optional_text(r) == Some(
            join(steps_between(segments(target@), segments(base@)), '/'),
        ),
{
    pathdiff::diff_paths(target, base).map(|p| p.to_string_lossy().to_string())
}

/// The components of a path's text are the components, where they are not empty and hold no
/// slash.
proof fn lemma_segments_of_join(components: Seq<Seq<char>>)
    requires
        forall|i: int|
            0 <= i < components.len() ==> (#[trigger] components[i]).len() > 0
                && !components[i].contains('/'),
    ensures
        segments(join(components, '/')) == components,
{
    if components.len() == 0 {
        let empty = Seq::<char>::empty();
        assert(split(empty, '/') =~= seq![empty]);
        reveal_with_fuel(Seq::filter, 2);
        assert(seq![empty].drop_last() =~= Seq::empty());
        assert(segments(empty) =~= components);
    } else {
        split_undoes_join(components, '/');
        lemma_non_empty_keeps_all(components);
    }
}

/// Where no piece is empty, all of them stay.
proof fn lemma_non_empty_keeps_all(pieces: Seq<Seq<char>>)
    requires
        forall|i: int| 0 <= i < pieces.len() ==> (#[trigger] pieces[i]).len() > 0,
    ensures
        non_empty(pieces) == pieces,
    decreases pieces.len(),
{
    reveal(Seq::filter);
    if pieces.len() > 0 {
        let front = pieces.drop_last();
        assert forall|i: int| 0 <= i < front.len() implies (#[trigger] front[i]).len() > 0 by {
            assert(front[i] == pieces[i]);
        }
        lemma_non_empty_keeps_all(front);
        assert(pieces =~= front.push(pieces.last()));
    }
}

/// Two paths share no more components than either has.
pub proof fn lemma_common_prefix(a: Seq<Seq<char>>, b: Seq<Seq<char>>)
    ensures
        common_prefix(a, b) <= a.len(),
        common_prefix(a, b) <= b.len(),
        a.take(common_prefix(a, b) as int) == b.take(common_prefix(a, b) as int),
    decreases a.len(),
{
    let n = common_prefix(a, b);
    if n > 0 {
        lemma_common_prefix(a.drop_first(), b.drop_first());
        let x = a.drop_first().take(n - 1);
        let y = b.drop_first().take(n - 1);
        assert(x == y);
        assert(a.take(n as int) =~= seq![a[0]] + x);
        assert(b.take(n as int) =~= seq![b[0]] + y);
    } else {
        assert(a.take(0) =~= b.take(0));
    }
}

/// Steps up leave the front of the path.
proof fn lemma_walk_up(dir: Seq<Seq<char>>, count: nat)
    requires
        count <= dir.len(),
    ensures
        walk(dir, steps_up(count)) == dir.take(dir.len() - count),
    decreases count,
{
    if count > 0 {
        lemma_walk_up(dir, (count - 1) as nat);
        assert(steps_up(count).drop_last() =~= steps_up((count - 1) as nat));
        assert(dir.take(dir.len() - count + 1).drop_last() =~= dir.take(dir.len() - count));
    } else {
        assert(dir.take(dir.len() as int) =~= dir);
    }
}

/// Steps that are names go down.
proof fn lemma_walk_down(dir: Seq<Seq<char>>, up: Seq<Seq<char>>, down: Seq<Seq<char>>)
    requires
        all_names(down),
    ensures
        walk(dir, up + down) == walk(dir, up) + down,
    decreases down.len(),
{
    if down.len() == 0 {
        assert(up + down =~= up);
        assert(walk(dir, up) + down =~= walk(dir, up));
    } else {
        let front = down.drop_last();
        assert forall|i: int| 0 <= i < front.len() implies is_name(#[trigger] front[i]) by {
            assert(front[i] == down[i]);
        }
        lemma_walk_down(dir, up, front);
        assert(is_name(down.last()));
        assert((up + down).drop_last() =~= up + front);
        assert(walk(dir, up + down) =~= walk(dir, up) + down);
    }
}

/// The steps between two paths lead from the one to the other.
pub proof fn steps_lead_to_target(target: Seq<Seq<char>>, base: Seq<Seq<char>>)
    requires
        all_names(target),
    ensures
        walk(base, steps_between(target, base)) == target,
{
    let shared = common_prefix(target, base);
    let up = steps_up((base.len() - shared) as nat);
    let down = target.skip(shared as int);
    lemma_common_prefix(target, base);
    lemma_walk_up(base, (base.len() - shared) as nat);
    assert forall|i: int| 0 <= i < down.len() implies is_name(#[trigger] down[i]) by {
        assert(down[i] == target[shared + i]);
    }
    lemma_walk_down(base, up, down);
    assert(target.take(shared as int) + down =~= target);
}

/// The relative path from a file of a site to the file for a URL on its host: the steps from
/// the one to the other, where all paths are made of names, and else what
/// [`path_difference`] names.
pub open spec fn relative_link(
    url: UrlModel,
    base_url: UrlModel,
    file_path: Seq<Seq<char>>,
    output_dir: Seq<Seq<char>>,
) -> Option<Seq<char>> {
    if url.host != base_url.host || file_path.len() == 0 {
        None
    } else {
        let target = site_path(output_dir, url.path);
        let dir = file_path.drop_last();
        if all_names(target) && all_names(dir) {
            Some(join(steps_between(target, dir), '/'))
        } else {
            path_difference(join(target, '/'), join(dir, '/'))
        }
    }
}

/// The text of a path made of names is a plain path with these components.
proof fn lemma_names_are_plain(components: Seq<Seq<char>>)
    requires
        all_names(components),
    ensures
        is_plain(join(components, '/')),
        segments(join(components, '/')) == components,
    decreases components.len(),
{
    assert forall|i: int| 0 <= i < components.len() implies (#[trigger] components[i]).len() > 0
        && !components[i].contains('/') by {
        assert(is_name(components[i]));
    }
    lemma_segments_of_join(components);
    lemma_join_start(components);
}

/// The text of a path begins as its first component does.
proof fn lemma_join_start(components: Seq<Seq<char>>)
    requires
        components.len() > 0 ==> components[0].len() > 0,
    ensures
        components.len() > 0 ==> join(components, '/').len() > 0 && join(components, '/')[0]
            == components[0][0],
        components.len() == 0 ==> join(components, '/').len() == 0,
    decreases components.len(),
{
    if components.len() > 1 {
        lemma_join_start(components.drop_last());
    }
}

/// The steps between two paths, written as a path and read again, lead from the one to the
/// other.
pub proof fn written_steps_lead_to_target(target: Seq<Seq<char>>, dir: Seq<Seq<char>>)
    requires
        all_names(target),
    ensures
        ({
            let steps = steps_between(target, dir);
            &&& segments(join(steps, '/')) == steps
            &&& walk(dir, segments(join(steps, '/'))) == target
        }),
{
    let steps = steps_between(target, dir);
    steps_lead_to_target(target, dir);
    lemma_common_prefix(target, dir);
    reveal_strlit("..");
    let shared = common_prefix(target, dir);
    assert forall|i: int| 0 <= i < steps.len() implies (#[trigger] steps[i]).len() > 0
        && !steps[i].contains('/') by {
        if i >= dir.len() - shared {
            assert(steps[i] == target[i - (dir.len() - shared) + shared]);
        }
    }
    lemma_segments_of_join(steps);
}

/// The files of a site whose directory is a path made of names have such paths too, where
/// their URLs' paths are made of names.
pub proof fn lemma_site_path_names(output_dir: Seq<Seq<char>>, path: Seq<char>)
    requires
        all_names(output_dir),
        all_names(segments(path)),
    ensures
        all_names(site_path(output_dir, path)),
        all_names(site_path(output_dir, path).drop_last()),
{
    let all = site_path(output_dir, path);
    lemma_site_path_lies_below(output_dir, path);
    assert forall|i: int| 0 <= i < all.len() implies is_name(#[trigger] all[i]) by {
        if i < output_dir.len() {
            assert(all[i] == output_dir[i]);
        } else {
            assert(all[i] == all.skip(output_dir.len() as int)[i - output_dir.len()]);
        }
    }
    let dir = all.drop_last();
    assert forall|i: int| 0 <= i < dir.len() implies is_name(#[trigger] dir[i]) by {
        assert(dir[i] == all[i]);
    }
}

/// A relative link leads from the page to the file: following it from the directory in which
/// the file of the URL `page` lies ends at the file of the URL `url`, for two URLs on one host
/// whose paths are made of names.
pub proof fn relative_links_lead_to_files(
    url: UrlModel,
    page: UrlModel,
    output_dir: Seq<Seq<char>>,
)
    requires
        url.host == page.host,
        all_names(output_dir),
        all_names(segments(page.path)),
        all_names(segments(url.path)),
    ensures
        ({
            let file_path = site_path(output_dir, page.path);
            relative_link(url, page, file_path, output_dir) matches Some(link) && walk(
                file_path.drop_last(),
                segments(link),
            ) == site_path(output_dir, url.path)
        }),
{
    lemma_site_path_names(output_dir, page.path);
    lemma_site_path_names(output_dir, url.path);
    written_steps_lead_to_target(
        site_path(output_dir, url.path),
        site_path(output_dir, page.path).drop_last(),
    );
}

/// Converts an absolute URL to a relative path for offline viewing.
pub fn url_to_relative_path(
    url: &WebUrl,
    base_url: &WebUrl,
    file_path: &FilePath,
    output_dir: &FilePath,
) -> (r: Option<String>)
    ensures
        optional_text(r) == relative_link(url@, base_url@, file_path@, output_dir@),
{
    if !is_same_domain(url, base_url) {
        return None;
    }
    let (_, target) = get_file_path(url, output_dir);
    match file_path.parent() {
        Some(dir) => {
            proof {
                if all_names(target@) && all_names(dir@) {
                    lemma_names_are_plain(target@);
                    lemma_names_are_plain(dir@);
                }
            }
            diff_paths(target.text().as_str(), dir.text().as_str())
        },
        None => None,
    }
}

} // verus!
