//! Where the files of a mirrored site lie, and how one leads to another.
//!
//! Paths are written with `/` between their components.

use vstd::prelude::*;
use vstd::string::StringExecFns;
use crate::text::{
    first_char, join, last_char, lemma_texts_push, non_empty, pieces, same_text, split,
    split_of_two, starts_with, texts, trim_end, without_trailing, CharClass,
};
use crate::weburl::{UrlModel, WebUrl};

verus! {

/// The components of a path: the non-empty pieces between slashes.
pub open spec fn segments(path: Seq<char>) -> Seq<Seq<char>> {
    non_empty(split(path, '/'))
}

/// Whether a component is the name of a file or directory.
pub open spec fn is_name(component: Seq<char>) -> bool {
    &&& component.len() > 0
    &&& !component.contains('/')
    &&& component != "."@
    &&& component != ".."@
}

/// Whether every component of a path is a name.
pub open spec fn all_names(components: Seq<Seq<char>>) -> bool {
    forall|i: int| 0 <= i < components.len() ==> is_name(#[trigger] components[i])
}

/// Whether a path leads below a directory.
pub open spec fn lies_below(path: Seq<Seq<char>>, dir: Seq<Seq<char>>) -> bool {
    &&& dir.len() < path.len()
    &&& dir.is_prefix_of(path)
    &&& all_names(path.skip(dir.len() as int))
}

/// Whether a URL's path denotes a directory or something in it, at any depth. Slashes at the
/// end of the directory change nothing.
pub open spec fn lies_within(path: Seq<char>, directory: Seq<char>) -> bool {
    let dir = trim_end(directory, CharClass::Only('/'));
    path == dir || dir.push('/').is_prefix_of(path)
}

/// Whether a URL's path denotes one of the directories or something in it.
pub open spec fn lies_within_any(path: Seq<char>, directories: Seq<Seq<char>>) -> bool {
    exists|i: int| 0 <= i < directories.len() && lies_within(path, #[trigger] directories[i])
}

/// Whether a URL's path denotes a directory rather than a file in one.
pub open spec fn is_directory(path: Seq<char>) -> bool {
    path.len() == 0 || path.last() == '/'
}

/// The directories, below that of the site, in which what a URL's path denotes lies.
pub open spec fn directory_components(path: Seq<char>) -> Seq<Seq<char>> {
    if is_directory(path) {
        segments(path)
    } else {
        segments(path).drop_last()
    }
}

/// The name of the file for what a URL's path denotes; a directory stands for its index.
pub open spec fn file_name(path: Seq<char>) -> Seq<char> {
    if is_directory(path) {
        "index.html"@
    } else {
        segments(path).last()
    }
}

/// Where the file for what a URL's path denotes lies, in a site written to `output_dir`.
pub open spec fn site_path(output_dir: Seq<Seq<char>>, path: Seq<char>) -> Seq<Seq<char>> {
    output_dir + directory_components(path).push(file_name(path))
}

/// The part of a file name behind its last dot. A name has none if its only dot is the first
/// character, and `..` has none.
pub open spec fn extension(name: Seq<char>) -> Option<Seq<char>> {
    let parts = split(name, '.');
    if parts.len() < 2 || (parts.len() == 2 && parts[0].len() == 0) || name == ".."@ {
        None
    } else {
        Some(parts.last())
    }
}

/// The path `rest` taken from the directory `dir`; an absolute one stands for itself.
pub open spec fn path_join(dir: Seq<char>, rest: Seq<char>) -> Seq<char> {
    if rest.len() > 0 && rest[0] == '/' {
        rest
    } else if dir.len() == 0 || dir.last() == '/' {
        dir + rest
    } else {
        dir.push('/') + rest
    }
}

/// A path relative to the directory that the mirror is written to.
#[derive(Clone, Debug)]
pub struct FilePath {
    pub components: Vec<String>,
}

impl View for FilePath {
    type V = Seq<Seq<char>>;

    open spec fn view(&self) -> Seq<Seq<char>> {
        texts(self.components@)
    }
}

/// The components of a path.
pub fn path_components(path: &str) -> (r: Vec<String>)
    ensures
        texts(r@) == segments(path@),
{
    let all = pieces(path, '/');
    let ghost whole = split(path@, '/');
    let mut kept: Vec<String> = Vec::new();
    let mut i: usize = 0;
    assert(texts(kept@) =~= non_empty(whole.take(0))) by {
        reveal(Seq::filter);
    }
    while i < all.len()
        invariant
            i <= all@.len(),
            texts(all@) == whole,
            texts(kept@) == non_empty(whole.take(i as int)),
        decreases all@.len() - i,
    {
        proof {
            assert(whole[i as int] == all@[i as int]@);
            assert(whole.take(i + 1).drop_last() =~= whole.take(i as int));
            reveal(Seq::filter);
            lemma_texts_push(kept@, all@[i as int]);
        }
        if !all[i].as_str().is_empty() {
            kept.push(all[i].clone());
        }
        i += 1;
    }
    assert(whole.take(i as int) =~= whole);
    kept
}

/// Appends a copy of the first `to` strings of a list.
fn push_copies(out: &mut Vec<String>, list: &Vec<String>, to: usize)
    requires
        to <= list@.len(),
    ensures
        texts(final(out)@) == texts(old(out)@) + texts(list@).take(to as int),
{
    let mut i: usize = 0;
    assert(texts(out@) =~= texts(old(out)@) + texts(list@).take(0));
    while i < to
        invariant
            i <= to <= list@.len(),
            texts(out@) == texts(old(out)@) + texts(list@).take(i as int),
        decreases to - i,
    {
        proof {
            lemma_texts_push(out@, list@[i as int]);
        }
        out.push(list[i].clone());
        i += 1;
        assert(texts(out@) =~= texts(old(out)@) + texts(list@).take(i as int));
    }
}

impl FilePath {
    /// The path of the components of a text.
    pub fn relative(text: &str) -> (r: FilePath)
        ensures
            r@ == segments(text@),
    {
        FilePath { components: path_components(text) }
    }

    /// The first `to` components.
    fn prefix(&self, to: usize) -> (r: FilePath)
        requires
            to <= self@.len(),
        ensures
            r@ == self@.take(to as int),
    {
        let mut components: Vec<String> = Vec::new();
        push_copies(&mut components, &self.components, to);
        assert(texts(components@) =~= self@.take(to as int));
        FilePath { components }
    }

    /// The same path once more.
    pub fn duplicate(&self) -> (r: FilePath)
        ensures
            r@ == self@,
    {
        assert(self@.take(self@.len() as int) =~= self@);
        self.prefix(self.components.len())
    }

    /// The directory in which the path lies; the empty path lies in none.
    pub fn parent(&self) -> (r: Option<FilePath>)
        ensures
            match r {
                Some(dir) => self@.len() > 0 && dir@ == self@.drop_last(),
                None => self@.len() == 0,
            },
    {
        if self.components.len() == 0 {
            return None;
        }
        assert(self@.take(self@.len() - 1) =~= self@.drop_last());
        Some(self.prefix(self.components.len() - 1))
    }

    /// The path as text.
    pub fn text(&self) -> (r: String)
        ensures
            r@ == join(self@, '/'),
    {
        let mut r = String::new();
        let mut i: usize = 0;
        while i < self.components.len()
            invariant
                i <= self@.len(),
                self@.len() == self.components@.len(),
                r@ == join(self@.take(i as int), '/'),
            decreases self@.len() - i,
        {
            assert(self@.take(i + 1).drop_last() =~= self@.take(i as int));
            assert(self@[i as int] == self.components@[i as int]@);
            if i > 0 {
                r.push('/');
            }
            r.append(self.components[i].as_str());
            i += 1;
            assert(r@ =~= join(self@.take(i as int), '/'));
        }
        assert(self@.take(i as int) =~= self@);
        r
    }
}

/// A path that denotes no directory has a last component.
pub proof fn lemma_file_has_segment(path: Seq<char>)
    requires
        !is_directory(path),
    ensures
        segments(path).len() > 0,
{
    reveal(Seq::filter);
    assert(split(path, '/').last().len() > 0);
}

/// The files of a site lie below its directory, where their URLs' paths are made of names.
pub proof fn lemma_site_path_lies_below(output_dir: Seq<Seq<char>>, path: Seq<char>)
    requires
        all_names(segments(path)),
    ensures
        lies_below(site_path(output_dir, path), output_dir),
        site_path(output_dir, path).last() == file_name(path),
{
    let below = directory_components(path).push(file_name(path));
    if is_directory(path) {
        reveal_strlit("index.html");
        reveal_strlit(".");
        reveal_strlit("..");
        let name = "index.html"@;
        assert(name.len() == 10);
        assert forall|i: int| 0 <= i < name.len() implies name[i] != '/' by {}
    } else {
        lemma_file_has_segment(path);
        assert(below =~= segments(path));
    }
    assert forall|i: int| 0 <= i < below.len() implies is_name(#[trigger] below[i]) by {
        if i < segments(path).len() {
            assert(below[i] == segments(path)[i]);
        }
    }
    let all = site_path(output_dir, path);
    assert(all.skip(output_dir.len() as int) =~= below);
    assert(output_dir =~= all.subrange(0, output_dir.len() as int));
}

/// Whether a URL's path denotes a directory or something in it.
pub fn is_within(path: &str, directory: &str) -> (r: bool)
    ensures
        r == lies_within(path@, directory@),
{
    let mut dir = without_trailing(directory, CharClass::Only('/'));
    if same_text(path, dir.as_str()) {
        return true;
    }
    dir.push('/');
    starts_with(path, dir.as_str())
}

/// Whether a URL's path denotes one of the directories or something in it.
pub fn is_within_any(path: &str, directories: &Vec<String>) -> (r: bool)
    ensures
        r == lies_within_any(path@, texts(directories@)),
{
    let mut i: usize = 0;
    while i < directories.len()
        invariant
            i <= directories@.len(),
            forall|j: int|
                0 <= j < i ==> !lies_within(path@, #[trigger] texts(directories@)[j]),
        decreases directories@.len() - i,
    {
        assert(texts(directories@)[i as int] == directories@[i as int]@);
        if is_within(path, directories[i].as_str()) {
            return true;
        }
        i += 1;
    }
    false
}

fn denotes_directory(path: &str) -> (r: bool)
    ensures
        r == is_directory(path@),
{
    match last_char(path) {
        Some(c) => c == '/',
        None => true,
    }
}

/// Determines file name and path from a URL.
pub fn get_file_path(url: &WebUrl, dir_path: &FilePath) -> (r: (String, FilePath))
    ensures
        r.0@ == file_name(url@.path),
        r.1@ == site_path(dir_path@, url@.path),
{
    let parts = path_components(url.path.as_str());
    let mut components = dir_path.duplicate().components;
    if denotes_directory(url.path.as_str()) {
        push_copies(&mut components, &parts, parts.len());
        let name = "index.html".to_string();
        proof {
            assert(texts(parts@).take(parts@.len() as int) =~= texts(parts@));
            lemma_texts_push(components@, name);
        }
        components.push(name.clone());
        let path = FilePath { components };
        assert(path@ =~= site_path(dir_path@, url@.path));
        (name, path)
    } else {
        proof {
            lemma_file_has_segment(url@.path);
            assert(texts(parts@).len() == parts@.len());
        }
        push_copies(&mut components, &parts, parts.len() - 1);
        let name = parts[parts.len() - 1].clone();
        proof {
            assert(texts(parts@).take(parts@.len() - 1) =~= texts(parts@).drop_last());
            assert(texts(parts@).last() == name@);
            lemma_texts_push(components@, name);
        }
        components.push(name.clone());
        let path = FilePath { components };
        assert(path@ =~= site_path(dir_path@, url@.path));
        (name, path)
    }
}

/// The directory for a URL found on a page in `base_dir`.
pub open spec fn directory_of(
    url: UrlModel,
    base_url: UrlModel,
    base_dir: Seq<Seq<char>>,
) -> Seq<Seq<char>> {
    if url.text == base_url.text {
        base_dir
    } else {
        base_dir + directory_components(url.path)
    }
}

/// Calculates the directory path for a URL.
pub fn calculate_directory_path(url: &WebUrl, base_url: &WebUrl, base_dir: &FilePath) -> (r:
    FilePath)
    ensures
        r@ == directory_of(url@, base_url@, base_dir@),
{
    if same_text(url.text.as_str(), base_url.text.as_str()) {
        return base_dir.duplicate();
    }
    let parts = path_components(url.path.as_str());
    let mut components = base_dir.duplicate().components;
    let to: usize = if denotes_directory(url.path.as_str()) {
        assert(texts(parts@).take(parts@.len() as int) =~= texts(parts@));
        parts.len()
    } else {
        proof {
            lemma_file_has_segment(url@.path);
            assert(texts(parts@).len() == parts@.len());
            assert(texts(parts@).take(parts@.len() - 1) =~= texts(parts@).drop_last());
        }
        parts.len() - 1
    };
    push_copies(&mut components, &parts, to);
    FilePath { components }
}

/// A URL's file lies in the directory that is calculated for the URL, where it is not the one
/// that `base_dir` belongs to.
pub proof fn files_lie_in_their_directories(
    url: UrlModel,
    base_url: UrlModel,
    base_dir: Seq<Seq<char>>,
)
    requires
        url.text != base_url.text,
    ensures
        site_path(base_dir, url.path).drop_last() == directory_of(url, base_url, base_dir),
{
    assert(site_path(base_dir, url.path).drop_last() =~= directory_of(url, base_url, base_dir));
}

/// The components of two paths with a slash between them are those of the first, then those
/// of the second.
pub proof fn lemma_segments_of_two(a: Seq<char>, b: Seq<char>)
    ensures
        segments(a.push('/') + b) == segments(a) + segments(b),
{
    split_of_two(a, b, '/');
    let keep = |p: Seq<char>| p.len() > 0;
    Seq::filter_distributes_over_add(split(a, '/'), split(b, '/'), keep);
}

/// Slashes at the end of a path separate nothing.
proof fn lemma_segments_of_trimmed(path: Seq<char>)
    ensures
        segments(trim_end(path, CharClass::Only('/'))) == segments(path),
    decreases path.len(),
{
    if path.len() > 0 && path.last() == '/' {
        let front = path.drop_last();
        let empty = Seq::<char>::empty();
        lemma_segments_of_trimmed(front);
        lemma_segments_of_two(front, empty);
        assert(path =~= front.push('/') + empty);
        assert(segments(empty) =~= Seq::empty()) by {
            assert(split(empty, '/') =~= seq![empty]);
            reveal_with_fuel(Seq::filter, 2);
            assert(seq![empty].drop_last() =~= Seq::empty());
        }
        assert(segments(front) + segments(empty) =~= segments(front));
    }
}

/// What lies within a directory has all components of the directory before its own: a path
/// whose component only begins as the directory's does lies elsewhere.
pub proof fn directories_are_whole_components(path: Seq<char>, directory: Seq<char>)
    requires
        lies_within(path, directory),
    ensures
        segments(directory).is_prefix_of(segments(path)),
{
    let dir = trim_end(directory, CharClass::Only('/'));
    lemma_segments_of_trimmed(directory);
    if path == dir {
        assert(segments(dir) =~= segments(path).subrange(0, segments(dir).len() as int));
    } else {
        let rest = path.skip(dir.len() as int + 1);
        assert(path =~= dir.push('/') + rest);
        lemma_segments_of_two(dir, rest);
        assert(segments(dir) =~= segments(path).subrange(0, segments(dir).len() as int));
    }
}

/// The part of a file name behind its last dot.
pub fn file_extension(name: &str) -> (r: Option<String>)
    ensures
        match r {
            Some(ext) => extension(name@) == Some(ext@),
            None => extension(name@) is None,
        },
{
    let parts = pieces(name, '.');
    assert(texts(parts@).len() == parts@.len());
    if parts.len() < 2 {
        return None;
    }
    assert(texts(parts@)[0] == parts@[0]@);
    if parts.len() == 2 && parts[0].as_str().is_empty() {
        return None;
    }
    if same_text(name, "..") {
        return None;
    }
    assert(texts(parts@).last() == parts@.last()@);
    Some(parts[parts.len() - 1].clone())
}

/// The path `rest` taken from the directory `dir`.
pub fn join_path(dir: &str, rest: &str) -> (r: String)
    ensures
        r@ == path_join(dir@, rest@),
{
    if let Some(c) = first_char(rest) {
        if c == '/' {
            return rest.to_owned();
        }
    }
    let mut r = dir.to_owned();
    if let Some(c) = last_char(dir) {
        if c != '/' {
            r.push('/');
        }
    }
    r.append(rest);
    r
}

} // verus!
