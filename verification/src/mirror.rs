//! Mirroring a website: what to fetch next, where to put it, which links to follow.

use std::collections::VecDeque;
use vstd::prelude::*;
use crate::cli::{optional_text, split_comma_separated, WgetArgs};
use crate::convert::{link_tag, link_tags, FileKind, LINK_TAGS};
use crate::error::{ErrorModel, WgetError};
use crate::links::{
    css_links, extract_links_from_tag, extract_urls_from_css, is_parsable, lemma_all_tidy,
    page_fits, tag_links,
};
use crate::paths::{
    file_name, get_file_path, is_within_any, lies_below, lies_within_any, segments, site_path,
    FilePath,
};
use crate::text::{
    any_suffix, contains, ends_with_any, holds_text, lemma_texts_push, occurs_in, texts,
    trimmed_pieces,
};
use crate::weburl::{all_tidy, is_same_domain, is_tidy, url_models, url_parse, UrlModel, WebUrl};

verus! {

/// Maximum concurrent connections
pub const MAX_CONCURRENT_REQUESTS: usize = 10;

/// Connection timeout in seconds
pub const CONNECTION_TIMEOUT: u64 = 30;

/// A URL to fetch.
#[derive(Clone, Debug)]
pub struct Job {
    pub url: WebUrl,
}

/// What a [`Job`] holds.
pub struct JobModel {
    pub url: UrlModel,
}

impl View for Job {
    type V = JobModel;

    open spec fn view(&self) -> JobModel {
        JobModel { url: self.url@ }
    }
}

/// What a queue of jobs holds.
pub open spec fn job_models(jobs: Seq<Job>) -> Seq<JobModel> {
    jobs.map_values(|j: Job| j@)
}

/// A file that was written, and the URL that it was fetched from.
#[derive(Clone, Debug)]
pub struct SavedFile {
    pub url: WebUrl,
    pub path: FilePath,
}

/// What a [`SavedFile`] holds.
pub struct SavedModel {
    pub url: UrlModel,
    pub path: Seq<Seq<char>>,
}

impl View for SavedFile {
    type V = SavedModel;

    open spec fn view(&self) -> SavedModel {
        SavedModel { url: self.url@, path: self.path@ }
    }
}

/// What a list of files holds.
pub open spec fn file_models(files: Seq<SavedFile>) -> Seq<SavedModel> {
    files.map_values(|f: SavedFile| f@)
}

/// The state of a crawl.
pub struct Crawl {
    base: WebUrl,
    output_dir: FilePath,
    reject: Vec<String>,
    exclude: Vec<String>,
    visited: Vec<String>,
    queue: VecDeque<Job>,
    downloaded: Vec<SavedFile>,
}

/// What a [`Crawl`] holds.
#[verifier::ext_equal]
pub struct CrawlModel {
    /// The URL that the crawl began with.
    pub base: UrlModel,
    /// The directory of the site.
    pub output_dir: Seq<Seq<char>>,
    /// Files whose names end with one of these are not fetched.
    pub reject: Seq<Seq<char>>,
    /// URLs that denote one of these directories, or something in it, are not fetched.
    pub exclude: Seq<Seq<char>>,
    /// The URLs that were taken from the queue.
    pub visited: Set<Seq<char>>,
    /// The jobs that wait, the next one first.
    pub queue: Seq<JobModel>,
    /// The files that were written, in that order.
    pub downloaded: Seq<SavedModel>,
}

/// What to do next.
#[derive(Debug)]
pub enum Step {
    /// No job waits.
    Idle,
    /// The next URL was fetched before: nothing to do for it.
    AlreadyVisited { url: String },
    /// The next URL lies in an excluded directory: nothing to do for it.
    Excluded { path: String },
    /// Fetch this URL.
    Fetch { job: Job },
}

/// What a [`Step`] holds.
pub enum StepModel {
    Idle,
    AlreadyVisited { url: Seq<char> },
    Excluded { path: Seq<char> },
    Fetch { job: JobModel },
}

impl View for Step {
    type V = StepModel;

    open spec fn view(&self) -> StepModel {
        match *self {
            Step::Idle => StepModel::Idle,
            Step::AlreadyVisited { url } => StepModel::AlreadyVisited { url: url@ },
            Step::Excluded { path } => StepModel::Excluded { path: path@ },
            Step::Fetch { job } => StepModel::Fetch { job: job@ },
        }
    }
}

impl CrawlModel {
    /// Where the file for a URL is written, whatever page linked to it.
    pub open spec fn file_for(self, url: UrlModel) -> Seq<Seq<char>> {
        site_path(self.output_dir, url.path)
    }

    /// Whether a URL's path lies in an excluded directory.
    pub open spec fn excludes(self, path: Seq<char>) -> bool {
        lies_within_any(path, self.exclude)
    }

    /// Whether a file's name ends with a rejected suffix.
    pub open spec fn rejects(self, name: Seq<char>) -> bool {
        ends_with_any(name, self.reject)
    }

    /// The state after the next job was taken from the queue.
    pub open spec fn after_next(self) -> CrawlModel {
        if self.queue.len() == 0 {
            self
        } else {
            CrawlModel {
                queue: self.queue.drop_first(),
                visited: self.visited.insert(self.queue[0].url.text),
                ..self
            }
        }
    }

    /// What to do with the next job.
    pub open spec fn next_step(self) -> StepModel {
        if self.queue.len() == 0 {
            StepModel::Idle
        } else {
            let job = self.queue[0];
            if self.visited.contains(job.url.text) {
                StepModel::AlreadyVisited { url: job.url.text }
            } else if self.excludes(job.url.path) {
                StepModel::Excluded { path: job.url.path }
            } else {
                StepModel::Fetch { job }
            }
        }
    }

    /// Where the file for a job is written; one with a rejected suffix is not fetched.
    pub open spec fn target(self, job: JobModel) -> Option<Seq<Seq<char>>> {
        if self.rejects(file_name(job.url.path)) {
            None
        } else {
            Some(self.file_for(job.url))
        }
    }

    /// Whether a link is followed: it leads to the same host, to a URL that was not taken from
    /// the queue yet, and not into an excluded directory.
    pub open spec fn follows(self, url: UrlModel) -> bool {
        &&& url.host == self.base.host
        &&& !self.visited.contains(url.text)
        &&& !self.excludes(url.path)
    }

    /// The jobs for the links that are followed.
    pub open spec fn jobs_for(self, links: Seq<UrlModel>) -> Seq<JobModel>
        decreases links.len(),
    {
        if links.len() == 0 {
            Seq::empty()
        } else {
            let before = self.jobs_for(links.drop_last());
            let url = links.last();
            if self.follows(url) {
                before.push(JobModel { url })
            } else {
                before
            }
        }
    }

    /// The state after links were found on a page.
    pub open spec fn after_links(self, links: Seq<UrlModel>) -> CrawlModel {
        CrawlModel { queue: self.queue + self.jobs_for(links), ..self }
    }

    /// The state after a job's file was written and its links were found.
    pub open spec fn after_saved(self, job: JobModel, links: Seq<UrlModel>) -> CrawlModel {
        CrawlModel {
            downloaded: self.downloaded.push(
                SavedModel { url: job.url, path: self.file_for(job.url) },
            ),
            ..self.after_links(links)
        }
    }

    /// Every job that waits leads to the host of the site.
    pub open spec fn stays_on_host(self) -> bool {
        forall|i: int| 0 <= i < self.queue.len() ==> (#[trigger] self.queue[i]).url.host
            == self.base.host
    }

    /// Every URL of the web that waits has the path that stands in its text, and one that is
    /// made of names.
    pub open spec fn waits_for_tidy_urls(self) -> bool {
        forall|i: int| 0 <= i < self.queue.len() ==> is_tidy((#[trigger] self.queue[i]).url)
    }

    /// The URLs that wait are tidy; every file that was written lies below the directory of the
    /// site; and none has a rejected suffix.
    pub open spec fn stays_in_directory(self) -> bool {
        &&& self.waits_for_tidy_urls()
        &&& forall|i: int|
            0 <= i < self.downloaded.len() ==> lies_below(
                (#[trigger] self.downloaded[i]).path,
                self.output_dir,
            ) && !self.rejects(self.downloaded[i].path.last())
    }
}

/// The entries of an option that is a comma-separated list.
pub open spec fn list_option(list: Option<Seq<char>>) -> Seq<Seq<char>> {
    match list {
        Some(s) => trimmed_pieces(s, ','),
        None => Seq::empty(),
    }
}

/// The state in which a crawl begins: the site's URL waits, and its directory is named after
/// the host.
pub open spec fn start_model(base: UrlModel, host: Seq<char>, args: WgetArgs) -> CrawlModel {
    CrawlModel {
        base,
        output_dir: segments(host),
        reject: list_option(optional_text(args.reject)),
        exclude: list_option(optional_text(args.exclude)),
        visited: Set::empty(),
        queue: seq![JobModel { url: base }],
        downloaded: Seq::empty(),
    }
}

/// Reads an option that is a comma-separated list.
fn read_list_option(list: &Option<String>) -> (r: Vec<String>)
    ensures
        texts(r@) == list_option(optional_text(*list)),
{
    match list {
        Some(s) => split_comma_separated(s.as_str()),
        None => {
            let none: Vec<String> = Vec::new();
            assert(texts(none@) =~= Seq::empty());
            none
        },
    }
}

impl View for Crawl {
    type V = CrawlModel;

    closed spec fn view(&self) -> CrawlModel {
        CrawlModel {
            base: self.base@,
            output_dir: self.output_dir@,
            reject: texts(self.reject@),
            exclude: texts(self.exclude@),
            visited: texts(self.visited@).to_set(),
            queue: job_models(self.queue@),
            downloaded: file_models(self.downloaded@),
        }
    }
}

impl Crawl {
    /// No URL is noted as visited twice.
    pub closed spec fn wf(self) -> bool {
        texts(self.visited@).no_duplicates()
    }

    /// Begins to mirror the site that the options name.
    pub fn start(args: &WgetArgs) -> (r: Result<Crawl, WgetError>)
        ensures
            match optional_text(args.url) {
                None => r matches Err(e) && e@ == ErrorModel::MissingUrl,
                Some(url) => match url_parse(url) {
                    Err(reason) => r matches Err(e) && e@ == ErrorModel::InvalidUrl(reason),
                    Ok(base) => match base.host_text {
                        None => r matches Err(e) && e@ == ErrorModel::NoHost,
                        Some(host) => r matches Ok(crawl) && crawl.wf() && crawl@ == start_model(
                            base,
                            host,
                            *args,
                        ) && is_tidy(base),
                    },
                },
            },
    {
        match &args.url {
            None => Err(WgetError::MissingUrl),
            Some(url) => match WebUrl::parse(url.as_str()) {
                Err(reason) => Err(WgetError::InvalidUrl(reason)),
                Ok(base) => Crawl::start_at(base, args),
            },
        }
    }

    /// Begins to mirror the site at a URL.
    pub fn start_at(base: WebUrl, args: &WgetArgs) -> (r: Result<Crawl, WgetError>)
        ensures
            match base@.host_text {
                None => r matches Err(e) && e@ == ErrorModel::NoHost,
                Some(host) => r matches Ok(crawl) && crawl.wf() && crawl@ == start_model(
                    base@,
                    host,
                    *args,
                ),
            },
    {
        let output_dir = match &base.host_text {
            None => {
                return Err(WgetError::NoHost);
            },
            Some(host) => FilePath::relative(host.as_str()),
        };
        let mut queue: VecDeque<Job> = VecDeque::new();
        queue.push_back(Job { url: base.duplicate() });
        let crawl = Crawl {
            base,
            output_dir,
            reject: read_list_option(&args.reject),
            exclude: read_list_option(&args.exclude),
            visited: Vec::new(),
            queue,
            downloaded: Vec::new(),
        };
        proof {
            let host = base@.host_text->0;
            assert(crawl@.queue =~= start_model(base@, host, *args).queue);
            assert(crawl@.visited =~= Set::empty());
            assert(crawl@.downloaded =~= Seq::empty());
        }
        Ok(crawl)
    }

    /// The URL that the crawl began with.
    pub fn base_url(&self) -> (r: &WebUrl)
        ensures
            r@ == self@.base,
    {
        &self.base
    }

    /// The directory of the site.
    pub fn output_dir(&self) -> (r: &FilePath)
        ensures
            r@ == self@.output_dir,
    {
        &self.output_dir
    }

    /// The rejected suffixes.
    pub fn reject_patterns(&self) -> (r: &Vec<String>)
        ensures
            texts(r@) == self@.reject,
    {
        &self.reject
    }

    /// The excluded directories.
    pub fn exclude_paths(&self) -> (r: &Vec<String>)
        ensures
            texts(r@) == self@.exclude,
    {
        &self.exclude
    }

    /// The files that were written.
    pub fn downloaded_files(&self) -> (r: &Vec<SavedFile>)
        ensures
            file_models(r@) == self@.downloaded,
    {
        &self.downloaded
    }

    /// The number of jobs that wait.
    pub fn waiting(&self) -> (r: usize)
        ensures
            r == self@.queue.len(),
    {
        self.queue.len()
    }

    /// Whether anything is left to do, while `active` jobs are being fetched.
    pub fn is_unfinished(&self, active: usize) -> (r: bool)
        ensures
            r == (self@.queue.len() > 0 || active > 0),
    {
        self.queue.len() > 0 || active > 0
    }

    /// Whether only the jobs being fetched can bring new ones.
    pub fn must_wait(&self, active: usize) -> (r: bool)
        ensures
            r == (self@.queue.len() == 0 && active > 0),
    {
        self.queue.len() == 0 && active > 0
    }

    /// Takes the next job from the queue, and says what to do with it.
    pub fn next_step(&mut self) -> (r: Step)
        ensures
            final(self)@ == old(self)@.after_next(),
            r@ == old(self)@.next_step(),
            old(self).wf() ==> final(self).wf(),
    {
        let ghost before = self@;
        match self.queue.pop_front() {
            None => Step::Idle,
            Some(job) => {
                assert(job_models(self.queue@) =~= before.queue.drop_first());
                assert(before.queue[0] == job@);
                if holds_text(&self.visited, job.url.text.as_str()) {
                    assert(before.visited.insert(job@.url.text) =~= before.visited);
                    assert(self@ =~= before.after_next());
                    return Step::AlreadyVisited { url: job.url.text };
                }
                let text = job.url.text.clone();
                proof {
                    lemma_texts_push(self.visited@, text);
                    lemma_push_to_set(texts(self.visited@), text@);
                }
                self.visited.push(text);
                assert(self@ =~= before.after_next());
                if is_within_any(job.url.path.as_str(), &self.exclude) {
                    return Step::Excluded { path: job.url.path };
                }
                Step::Fetch { job }
            },
        }
    }
}

/// Whether the server says that it sent a page, a style sheet or something else; without a
/// word from it, a page.
pub open spec fn content_kind(content_type: Option<Seq<char>>) -> FileKind {
    let content_type = match content_type {
        Some(t) => t,
        None => "text/html"@,
    };
    if occurs_in(content_type, "text/html"@) {
        FileKind::Html
    } else if occurs_in(content_type, "text/css"@) {
        FileKind::Css
    } else {
        FileKind::Other
    }
}

/// What a server's content type says of what it sent.
pub fn classify_content(content_type: &Option<String>) -> (r: FileKind)
    ensures
        r == content_kind(optional_text(*content_type)),
{
    let content_type = match content_type {
        Some(t) => t.clone(),
        None => "text/html".to_string(),
    };
    if contains(content_type.as_str(), "text/html") {
        FileKind::Html
    } else if contains(content_type.as_str(), "text/css") {
        FileKind::Css
    } else {
        FileKind::Other
    }
}

/// The links of the first `count` tags of a page, tag by tag.
pub open spec fn page_links(html: Seq<char>, base: Seq<char>, count: nat) -> Result<
    Seq<UrlModel>,
    ErrorModel,
>
    decreases count,
{
    if count == 0 {
        Ok(Seq::empty())
    } else {
        let (tag, attribute) = link_tags()[count - 1];
        match page_links(html, base, (count - 1) as nat) {
            Err(e) => Err(e),
            Ok(before) => match tag_links(html, tag, attribute, base) {
                Err(e) => Err(e),
                Ok(links) => Ok(before + links),
            },
        }
    }
}

/// The links of what a server sent for a URL.
pub open spec fn content_links(kind: FileKind, text: Seq<char>, url: Seq<char>) -> Result<
    Seq<UrlModel>,
    ErrorModel,
> {
    match kind {
        FileKind::Html => page_links(text, url, LINK_TAGS as nat),
        FileKind::Css => Ok(css_links(text, url)),
        FileKind::Other => Ok(Seq::empty()),
    }
}

/// Once a tag is no selector, no later tag mends it.
proof fn lemma_page_links_fail(html: Seq<char>, base: Seq<char>, count: nat, all: nat)
    requires
        count <= all,
        page_links(html, base, count) is Err,
    ensures
        page_links(html, base, all) == page_links(html, base, count),
    decreases all,
{
    if count < all {
        lemma_page_links_fail(html, base, count, (all - 1) as nat);
    }
}

/// The links of a page.
pub fn find_page_links(html: &str, url: &WebUrl) -> (r: Result<Vec<WebUrl>, WgetError>)
    requires
        is_parsable(html@),
    ensures
        match page_links(html@, url@.text, LINK_TAGS as nat) {
            Ok(links) => r matches Ok(urls) && url_models(urls@) == links && all_tidy(links),
            Err(e) => r matches Err(error) && error@ == e,
        },
{
    let mut urls: Vec<WebUrl> = Vec::new();
    let mut i: usize = 0;
    assert(url_models(urls@) =~= Seq::empty());
    while i < LINK_TAGS
        invariant
            i <= LINK_TAGS,
            is_parsable(html@),
            page_links(html@, url@.text, i as nat) == Ok::<Seq<UrlModel>, ErrorModel>(
                url_models(urls@),
            ),
            all_tidy(url_models(urls@)),
        decreases LINK_TAGS - i,
    {
        let (tag_name, attr_name) = link_tag(i);
        let ghost before = url_models(urls@);
        match extract_links_from_tag(html, tag_name, attr_name, &mut urls, url) {
            Ok(()) => {
                proof {
                    let links = tag_links(html@, tag_name@, attr_name@, url@.text)->Ok_0;
                    lemma_all_tidy(before, links);
                }
            },
            Err(e) => {
                proof {
                    lemma_page_links_fail(
                        html@,
                        url@.text,
                        (i + 1) as nat,
                        LINK_TAGS as nat,
                    );
                }
                return Err(e);
            },
        }
        i += 1;
    }
    Ok(urls)
}

/// The links of what a server sent for a URL.
pub fn find_links(kind: FileKind, text: &str, url: &WebUrl) -> (r: Result<
    Vec<WebUrl>,
    WgetError,
>)
    requires
        kind is Html ==> is_parsable(text@),
    ensures
        match content_links(kind, text@, url@.text) {
            Ok(links) => r matches Ok(urls) && url_models(urls@) == links && all_tidy(links),
            Err(e) => r matches Err(error) && error@ == e,
        },
{
    match kind {
        FileKind::Html => find_page_links(text, url),
        FileKind::Css => Ok(extract_urls_from_css(text, url)),
        FileKind::Other => {
            let none: Vec<WebUrl> = Vec::new();
            assert(url_models(none@) =~= Seq::empty());
            Ok(none)
        },
    }
}

/// What `String::from_utf8_lossy` makes of bytes.
pub uninterp spec fn utf8_lossy(bytes: Seq<u8>) -> Seq<char>;

/// Calls `String::from_utf8_lossy`. Claimed of it: the text is what [`utf8_lossy`] names, a
/// function of the bytes alone; and bytes that are valid UTF-8 are decoded as such.
#[verifier::external_body]
pub(crate) fn decode_lossy(bytes: &Vec<u8>) -> (r: String)
    ensures
        r@ == utf8_lossy(bytes@),
        vstd::utf8::valid_utf8(bytes@) ==> r@ == vstd::utf8::decode_utf8(bytes@),
{
    String::from_utf8_lossy(bytes).into_owned()
}

/// The links of what a server sent for a URL, from its bytes; a page that is too large to be
/// parsed has an error in their place.
pub open spec fn body_links(
    content_type: Option<Seq<char>>,
    body: Seq<u8>,
    url: Seq<char>,
) -> Result<Seq<UrlModel>, ErrorModel> {
    let kind = content_kind(content_type);
    let text = utf8_lossy(body);
    if kind is Html && !is_parsable(text) {
        Err(ErrorModel::PageTooLarge)
    } else {
        content_links(kind, text, url)
    }
}

/// The links of what a server sent for a URL, from its bytes.
pub fn read_links(url: &WebUrl, content_type: &Option<String>, body: &Vec<u8>) -> (r: Result<
    Vec<WebUrl>,
    WgetError,
>)
    ensures
        match body_links(optional_text(*content_type), body@, url@.text) {
            Ok(links) => r matches Ok(urls) && url_models(urls@) == links && all_tidy(links),
            Err(e) => r matches Err(error) && error@ == e,
        },
{
    let kind = classify_content(content_type);
    let text = decode_lossy(body);
    if let FileKind::Html = kind {
        if !page_fits(text.as_str()) {
            return Err(WgetError::PageTooLarge);
        }
    }
    find_links(kind, text.as_str(), url)
}

impl Crawl {
    /// Where the file for a job is written; none, where its name has a rejected suffix.
    pub fn target(&self, job: &Job) -> (r: Option<FilePath>)
        ensures
            match r {
                Some(path) => self@.target(job@) == Some(path@),
                None => self@.target(job@) is None,
            },
    {
        let (name, path) = get_file_path(&job.url, &self.output_dir);
        if any_suffix(&self.reject, name.as_str()) {
            None
        } else {
            Some(path)
        }
    }

    /// Adds jobs for the links found on a page that are to be followed.
    pub fn add_links(&mut self, links: &Vec<WebUrl>)
        ensures
            final(self)@ == old(self)@.after_links(url_models(links@)),
            old(self).wf() ==> final(self).wf(),
    {
        let ghost all = url_models(links@);
        let ghost before = self@;
        let mut i: usize = 0;
        assert(self@ =~= before.after_links(all.take(0)));
        while i < links.len()
            invariant
                i <= links@.len(),
                all == url_models(links@),
                old(self).wf() ==> self.wf(),
                self@ == before.after_links(all.take(i as int)),
            decreases links@.len() - i,
        {
            let url = &links[i];
            assert(all[i as int] == url@);
            assert(all.take(i + 1).drop_last() =~= all.take(i as int));
            if is_same_domain(url, &self.base) && !holds_text(&self.visited, url.text.as_str())
                && !is_within_any(url.path.as_str(), &self.exclude) {
                let ghost queue = self@.queue;
                let job = Job { url: url.duplicate() };
                self.queue.push_back(job);
                assert(job_models(self.queue@) =~= queue.push(job@));
            }
            i += 1;
            assert(self@ =~= before.after_links(all.take(i as int)));
        }
        assert(all.take(i as int) =~= all);
    }

    /// Notes that a job's file was written, and adds jobs for the links of what was written.
    pub fn page_saved(&mut self, job: &Job, content_type: &Option<String>, body: &Vec<u8>) -> (r:
        Result<(), WgetError>)
        ensures
            match body_links(optional_text(*content_type), body@, job@.url.text) {
                Ok(links) => r is Ok && final(self)@ == old(self)@.after_saved(job@, links)
                    && all_tidy(links),
                Err(e) => r matches Err(error) && error@ == e && final(self)@
                    == old(self)@.after_saved(job@, Seq::empty()),
            },
            old(self).wf() ==> final(self).wf(),
    {
        match read_links(&job.url, content_type, body) {
            Ok(links) => {
                self.record(job, &links);
                Ok(())
            },
            Err(e) => {
                let none: Vec<WebUrl> = Vec::new();
                assert(url_models(none@) =~= Seq::empty());
                self.record(job, &none);
                Err(e)
            },
        }
    }

    /// Notes that a job's file was written and which links it holds.
    pub fn record(&mut self, job: &Job, links: &Vec<WebUrl>)
        ensures
            final(self)@ == old(self)@.after_saved(job@, url_models(links@)),
            old(self).wf() ==> final(self).wf(),
    {
        let ghost before = self@;
        let (_, path) = get_file_path(&job.url, &self.output_dir);
        let file = SavedFile { url: job.url.duplicate(), path };
        self.downloaded.push(file);
        assert(file_models(self.downloaded@) =~= before.downloaded.push(file@));
        let ghost noted = self@;
        self.add_links(links);
        proof {
            lemma_jobs_for_same(before, noted, url_models(links@));
        }
    }
}

/// Which links are followed does not depend on the files that were written.
proof fn lemma_jobs_for_same(a: CrawlModel, b: CrawlModel, links: Seq<UrlModel>)
    requires
        a.base == b.base,
        a.visited == b.visited,
        a.exclude == b.exclude,
    ensures
        a.jobs_for(links) == b.jobs_for(links),
    decreases links.len(),
{
    if links.len() > 0 {
        lemma_jobs_for_same(a, b, links.drop_last());
    }
}

/// A set of pushed elements is the set with the new one.
proof fn lemma_push_to_set<A>(s: Seq<A>, a: A)
    ensures
        s.push(a).to_set() == s.to_set().insert(a),
{
    let set = s.push(a).to_set();
    assert forall|x: A| #[trigger] set.contains(x) == s.to_set().insert(a).contains(x) by {
        if s.contains(x) {
            let i = choose|i: int| 0 <= i < s.len() && s[i] == x;
            assert(s.push(a)[i] == x);
        }
        assert(s.push(a)[s.len() as int] == a);
    }
    assert(set =~= s.to_set().insert(a));
}

} // verus!
