//! Where files lie and what they are called, told by how a URL's path is put together.

use vstd::prelude::*;
use crate::downloader::{download_name, save_path_text};
use crate::paths::{
    all_names, directory_of, extension, is_name, lemma_segments_of_two, lies_below, lies_within,
    lies_within_any, path_join, segments, site_path,
};
use crate::relative::{
    common_prefix, lemma_common_prefix, path_difference, relative_link, steps_between, walk,
    written_steps_lead_to_target,
};
use crate::text::{
    join, join_undoes_split, lemma_split_len, lemma_split_single, non_empty, split, split_of_two,
    CharClass,
};
use crate::text_laws::{empty_pieces_are_left_out, trimming_takes_the_run_at_the_end};
use crate::weburl::{is_web, HostModel, UrlHost, UrlModel, WebUrl};

verus! {

/// A path has the components of what stands before a slash, and then those of what stands
/// behind it; a text without a slash is one component, and the empty text none.
pub proof fn components_stand_between_slashes(a: Seq<char>, b: Seq<char>, name: Seq<char>)
    ensures
        segments(a + seq!['/'] + b) == segments(a) + segments(b),
        name.len() > 0 && !name.contains('/') ==> segments(name) == seq![name],
        segments(Seq::<char>::empty()).len() == 0,
{
    lemma_segments_of_two(a, b);
    assert(a.push('/') + b =~= a + seq!['/'] + b);
    let none = Seq::<Seq<char>>::empty();
    let empty = Seq::<char>::empty();
    lemma_split_single(empty, '/');
    assert(seq![empty] =~= none.push(empty));
    empty_pieces_are_left_out(none, empty);
    assert(non_empty(none) =~= none);
    if name.len() > 0 && !name.contains('/') {
        lemma_split_single(name, '/');
        assert(seq![name] =~= none.push(name));
        empty_pieces_are_left_out(none, name);
    }
}

/// The file for a URL's path lies in the directory of the site, below the directories of the
/// path, under the name behind the last slash; where none stands there, it is the index.
pub proof fn files_lie_where_paths_say(
    output_dir: Seq<Seq<char>>,
    dirs: Seq<char>,
    name: Seq<char>,
)
    ensures
        name.len() > 0 && !name.contains('/') ==> site_path(output_dir, dirs + seq!['/'] + name)
            == (output_dir + segments(dirs)).push(name) && site_path(output_dir, name)
            == output_dir.push(name),
        site_path(output_dir, dirs + seq!['/']) == (output_dir + segments(dirs)).push(
            "index.html"@,
        ),
        site_path(output_dir, Seq::<char>::empty()) == output_dir.push("index.html"@),
{
    let empty = Seq::<char>::empty();
    let directory = dirs + seq!['/'];
    components_stand_between_slashes(dirs, empty, name);
    components_stand_between_slashes(dirs, name, name);
    assert(directory + empty =~= directory);
    assert(segments(dirs) + segments(empty) =~= segments(dirs));
    assert(site_path(output_dir, directory) =~= (output_dir + segments(dirs)).push(
        "index.html"@,
    ));
    assert(site_path(output_dir, empty) =~= output_dir.push("index.html"@));
    if name.len() > 0 && !name.contains('/') {
        let path = dirs + seq!['/'] + name;
        assert(name.contains(name.last()));
        assert(path.last() == name.last());
        assert(segments(path).drop_last() =~= segments(dirs));
        assert(site_path(output_dir, path) =~= (output_dir + segments(dirs)).push(name));
        assert(site_path(output_dir, name) =~= output_dir.push(name));
    }
}

/// The directory for a URL is the one that its file lies in, below the directory of the page;
/// for the URL that the site begins with it is that directory itself.
pub proof fn directories_hold_the_files(
    url: UrlModel,
    base_url: UrlModel,
    base_dir: Seq<Seq<char>>,
)
    ensures
        url.text == base_url.text ==> directory_of(url, base_url, base_dir) == base_dir,
        url.text != base_url.text ==> directory_of(url, base_url, base_dir) == site_path(
            base_dir,
            url.path,
        ).drop_last(),
{
    assert(url.text != base_url.text ==> directory_of(url, base_url, base_dir) =~= site_path(
        base_dir,
        url.path,
    ).drop_last());
}

/// What stands behind a directory and a slash lies within the directory, and so does the
/// directory; nothing else does; and slashes at the end of the directory change nothing.
pub proof fn directories_hold_what_stands_behind_them(
    dir: Seq<char>,
    rest: Seq<char>,
    path: Seq<char>,
    slashes: Seq<char>,
)
    requires
        dir.len() > 0 ==> dir.last() != '/',
        forall|i: int| 0 <= i < slashes.len() ==> #[trigger] slashes[i] == '/',
    ensures
        lies_within(dir, dir + slashes),
        lies_within(dir + seq!['/'] + rest, dir + slashes),
        lies_within(path, dir + slashes) ==> path == dir || (dir.len() < path.len() && path.take(
            dir.len() as int,
        ) == dir && path[dir.len() as int] == '/'),
{
    trimming_takes_the_run_at_the_end(dir, slashes, CharClass::Only('/'));
    let whole = dir + seq!['/'] + rest;
    let start = dir.push('/');
    assert(start =~= whole.subrange(0, start.len() as int));
    if start.is_prefix_of(path) {
        assert(path.take(dir.len() as int) =~= dir) by {
            assert forall|i: int| 0 <= i < dir.len() implies path[i] == dir[i] by {
                assert(path.subrange(0, start.len() as int)[i] == start[i]);
            }
        }
        assert(path.subrange(0, start.len() as int)[dir.len() as int] == '/');
    }
}

/// Each directory of a list counts, whatever its place, and nothing else does.
pub proof fn every_directory_counts(path: Seq<char>, directories: Seq<Seq<char>>, i: int)
    ensures
        0 <= i < directories.len() && lies_within(path, directories[i]) ==> lies_within_any(
            path,
            directories,
        ),
        (forall|j: int|
            0 <= j < directories.len() ==> !lies_within(path, #[trigger] directories[j]))
            ==> !lies_within_any(path, directories),
{
}

/// The extension of a name stands behind its last dot: a name without a dot has none, nor has
/// one whose only dot it begins with.
pub proof fn extensions_stand_behind_the_last_dot(stem: Seq<char>, ext: Seq<char>)
    requires
        !ext.contains('.'),
    ensures
        extension(ext) is None,
        extension(seq!['.'] + ext) is None,
        extension(seq!['.', '.']) is None,
        stem.len() > 0 && !(stem == seq!['.'] && ext.len() == 0) ==> extension(
            stem + seq!['.'] + ext,
        ) == Some(ext),
{
    let empty = Seq::<char>::empty();
    lemma_split_single(ext, '.');
    lemma_split_single(empty, '.');
    split_of_two(empty, ext, '.');
    split_of_two(stem, ext, '.');
    lemma_split_len(stem, '.');
    assert(empty.push('.') + ext =~= seq!['.'] + ext);
    assert(stem.push('.') + ext =~= stem + seq!['.'] + ext);
    let name = stem + seq!['.'] + ext;
    let parts = split(name, '.');
    assert(parts =~= split(stem, '.') + seq![ext]);
    assert(split(seq!['.'] + ext, '.') =~= seq![empty, ext]);
    assert(extension(seq!['.', '.']) is None) by {
        reveal_strlit("..");
        assert(".."@ =~= seq!['.', '.']);
    }
    if stem.len() > 0 && !(stem == seq!['.'] && ext.len() == 0) {
        if parts.len() == 2 {
            join_undoes_split(stem, '.');
            assert(split(stem, '.').len() == 1);
            assert(parts[0] == split(stem, '.')[0]);
        }
        reveal_strlit("..");
        if name == ".."@ {
            assert(name.len() == 2);
            if ext.len() == 0 {
                assert(stem.len() == 1);
                assert(stem[0] == name[0]);
                assert(stem =~= seq!['.']);
            } else {
                assert(ext[ext.len() - 1] == name[name.len() - 1]);
                assert(ext.contains('.'));
            }
        }
    }
}

/// A path is taken from a directory with one slash between them; an absolute path stands for
/// itself, and from no directory a path is taken as it is.
pub proof fn paths_are_taken_from_directories(dir: Seq<char>, rest: Seq<char>)
    ensures
        rest.len() > 0 && rest[0] == '/' ==> path_join(dir, rest) == rest,
        !(rest.len() > 0 && rest[0] == '/') && dir.len() > 0 && dir.last() != '/' ==> path_join(
            dir,
            rest,
        ) == dir + seq!['/'] + rest,
        !(rest.len() > 0 && rest[0] == '/') && dir.len() > 0 && dir.last() == '/' ==> path_join(
            dir,
            rest,
        ) == dir + rest,
        dir.len() == 0 ==> path_join(dir, rest) == rest,
{
    assert(dir.push('/') + rest =~= dir + seq!['/'] + rest);
    assert(dir.len() == 0 ==> dir + rest =~= rest);
}

/// A download takes the name behind the last slash of its URL's path, whatever characters that
/// is made of; a path that ends with a slash, or does not begin with one, names the index; and
/// a name that the user chose goes before all.
pub proof fn downloads_take_the_last_name(dir: Seq<char>, name: Seq<char>, chosen: Seq<char>)
    ensures
        (dir.len() == 0 || dir[0] == '/') && name.len() > 0 && !name.contains('/')
            ==> download_name(dir + seq!['/'] + name, None) == name,
        dir.len() == 0 || dir[0] == '/' ==> download_name(dir + seq!['/'], None)
            == "index.html"@,
        dir.len() == 0 || dir[0] != '/' ==> download_name(dir, None) == "index.html"@,
        download_name(dir, Some(chosen)) == chosen,
{
    let empty = Seq::<char>::empty();
    let directory = dir + seq!['/'];
    split_of_two(dir, empty, '/');
    split_of_two(dir, name, '/');
    lemma_split_single(empty, '/');
    assert(dir.push('/') + empty =~= directory);
    assert(dir.push('/') + name =~= directory + name);
    assert(split(directory, '/').last() =~= empty);
    if dir.len() == 0 || dir[0] == '/' {
        assert(directory[0] == '/');
        assert((directory + name)[0] == '/');
        if name.len() > 0 && !name.contains('/') {
            lemma_split_single(name, '/');
            assert(split(directory + name, '/').last() == name);
        }
    }
}

/// A file is saved in the directory that the user chose, and else where the program runs.
pub proof fn downloads_lie_in_the_chosen_directory(dir: Seq<char>, name: Seq<char>)
    ensures
        save_path_text(None, name) == name,
        dir.len() > 0 && dir.last() != '/' && (name.len() == 0 || name[0] != '/')
            ==> save_path_text(Some(dir), name) == dir + seq!['/'] + name,
        dir.len() > 0 && dir.last() == '/' && (name.len() == 0 || name[0] != '/')
            ==> save_path_text(Some(dir), name) == dir + name,
        name.len() > 0 && name[0] == '/' ==> save_path_text(Some(dir), name) == name,
{
    paths_are_taken_from_directories(dir, name);
}

/// A component is a name unless it is empty, holds a slash or stands for a directory itself or
/// the one above; and a path lies below a directory where names lead there.
pub proof fn names_and_what_lies_below(
    name: Seq<char>,
    dir: Seq<Seq<char>>,
    names: Seq<Seq<char>>,
)
    ensures
        is_name(name) <==> name.len() > 0 && !name.contains('/') && name != seq!['.'] && name
            != seq!['.', '.'],
        names.len() > 0 && (forall|i: int| 0 <= i < names.len() ==> is_name(#[trigger] names[i]))
            ==> lies_below(dir + names, dir),
        lies_below(dir + names, dir) ==> names.len() > 0 && forall|i: int|
            0 <= i < names.len() ==> is_name(#[trigger] names[i]),
{
    reveal_strlit(".");
    reveal_strlit("..");
    assert("."@ =~= seq!['.']);
    assert(".."@ =~= seq!['.', '.']);
    let path = dir + names;
    assert(path.skip(dir.len() as int) =~= names);
    assert(dir =~= path.subrange(0, dir.len() as int));
}

/// A step that is a name leads down to it, and one that is `..` leads up.
pub proof fn steps_lead_down_and_up(
    dir: Seq<Seq<char>>,
    steps: Seq<Seq<char>>,
    name: Seq<char>,
)
    ensures
        walk(dir, Seq::<Seq<char>>::empty()) == dir,
        name != seq!['.', '.'] ==> walk(dir, steps.push(name)) == walk(dir, steps).push(name),
        walk(dir, steps).len() > 0 ==> walk(dir, steps.push(seq!['.', '.'])) == walk(
            dir,
            steps,
        ).drop_last(),
{
    reveal_strlit("..");
    assert(".."@ =~= seq!['.', '.']);
    assert(steps.push(name).drop_last() =~= steps);
    assert(steps.push(seq!['.', '.']).drop_last() =~= steps);
}

/// The steps between two paths that part at once go up from all of the one and down all of the
/// other, and what both begin with changes nothing: no step goes up farther than it must.
pub proof fn steps_go_no_farther_than_they_must(
    shared: Seq<Seq<char>>,
    target: Seq<Seq<char>>,
    base: Seq<Seq<char>>,
)
    requires
        target.len() == 0 || base.len() == 0 || target[0] != base[0],
    ensures
        steps_between(shared + target, shared + base).len() == base.len() + target.len(),
        forall|i: int|
            0 <= i < base.len() ==> #[trigger] steps_between(shared + target, shared + base)[i]
                == seq!['.', '.'],
        forall|i: int|
            0 <= i < target.len() ==> steps_between(shared + target, shared + base)[base.len() + i]
                == #[trigger] target[i],
    decreases shared.len(),
{
    reveal_strlit("..");
    assert(".."@ =~= seq!['.', '.']);
    let a = shared + target;
    let b = shared + base;
    lemma_shared(shared, target, base);
    lemma_common_prefix(a, b);
    assert(a.skip(shared.len() as int) =~= target);
}

proof fn lemma_shared(shared: Seq<Seq<char>>, target: Seq<Seq<char>>, base: Seq<Seq<char>>)
    requires
        target.len() == 0 || base.len() == 0 || target[0] != base[0],
    ensures
        common_prefix(shared + target, shared + base) == shared.len(),
    decreases shared.len(),
{
    if shared.len() > 0 {
        lemma_shared(shared.drop_first(), target, base);
        assert((shared + target).drop_first() =~= shared.drop_first() + target);
        assert((shared + base).drop_first() =~= shared.drop_first() + base);
    } else {
        assert(shared + target =~= target);
        assert(shared + base =~= base);
    }
}

/// A relative path leads from the directory of a file to the file for a URL of its host, where
/// both paths are made of names, and takes no step more than it must; other paths are left to
/// the difference of the two.
pub proof fn relative_paths_lead_from_file_to_file(
    url: UrlModel,
    page: UrlModel,
    file_path: Seq<Seq<char>>,
    output_dir: Seq<Seq<char>>,
)
    requires
        url.host == page.host,
        file_path.len() > 0,
    ensures
        ({
            let target = site_path(output_dir, url.path);
            let dir = file_path.drop_last();
            let link = relative_link(url, page, file_path, output_dir);
            &&& all_names(target) && all_names(dir) ==> link is Some && link->0 == join(
                steps_between(target, dir),
                '/',
            ) && segments(link->0) == steps_between(target, dir) && walk(dir, segments(link->0)) == target
            &&& !(all_names(target) && all_names(dir)) ==> link == path_difference(
                join(target, '/'),
                join(dir, '/'),
            )
        }),
{
    let target = site_path(output_dir, url.path);
    let dir = file_path.drop_last();
    if all_names(target) && all_names(dir) {
        written_steps_lead_to_target(target, dir);
    }
}

/// A URL on another host has no relative path, nor has any from no file.
pub proof fn other_hosts_have_no_relative_path(
    url: UrlModel,
    page: UrlModel,
    file_path: Seq<Seq<char>>,
    output_dir: Seq<Seq<char>>,
)
    ensures
        url.host != page.host ==> relative_link(url, page, file_path, output_dir) is None,
        file_path.len() == 0 ==> relative_link(url, page, file_path, output_dir) is None,
{
}

/// A URL's parts are those that it was read with; two hosts are the same where they are of one
/// kind and hold the same; and URLs of the web begin with their scheme.
pub proof fn urls_hold_their_parts(url: WebUrl, a: String, b: String, m: u32, n: u32, x: u128, y: u128)
    ensures
        url@.text == url.text@,
        url@.path == url.path@,
        url.host is None <==> url@.host is None,
        url.host matches Some(host) ==> url@.host == Some(host@),
        url.host_text matches Some(host) ==> url@.host_text == Some(host@),
        url.host_text is None <==> url@.host_text is None,
        UrlHost::Domain(a)@ == UrlHost::Domain(b)@ <==> a@ == b@,
        UrlHost::Ipv4(m)@ == UrlHost::Ipv4(n)@ <==> m == n,
        UrlHost::Ipv6(x)@ == UrlHost::Ipv6(y)@ <==> x == y,
        UrlHost::Domain(a)@ != UrlHost::Ipv4(m)@,
        UrlHost::Domain(a)@ != UrlHost::Ipv6(x)@,
        UrlHost::Ipv4(m)@ != UrlHost::Ipv6(x)@,
{
    assert(UrlHost::Domain(a)@ == HostModel::Domain(a@));
    assert(UrlHost::Domain(b)@ == HostModel::Domain(b@));
}

/// The URLs of the web are those that begin with `http://` or `https://`.
pub proof fn the_web_has_two_schemes(url: UrlModel, rest: Seq<char>)
    ensures
        url.text == "http://"@ + rest ==> is_web(url),
        url.text == "https://"@ + rest ==> is_web(url),
        !"http://"@.is_prefix_of(url.text) && !"https://"@.is_prefix_of(url.text) ==> !is_web(url),
{
    let a = "http://"@ + rest;
    let b = "https://"@ + rest;
    assert("http://"@ =~= a.subrange(0, "http://"@.len() as int));
    assert("https://"@ =~= b.subrange(0, "https://"@.len() as int));
}

} // verus!
