//! What each step of a crawl does, told of the jobs, the files and the filters themselves.

use vstd::prelude::*;
use crate::cli::WgetArgs;
use crate::mirror::{
    file_models, job_models, start_model, CrawlModel, Job, JobModel, SavedFile, SavedModel,
    StepModel,
};
use crate::mirror_laws::{
    after, files_stay_in_the_directory, links_are_tidy, only_fetched_is_saved, settings_stay,
    CrawlEvent,
};
use crate::path_laws::{
    components_stand_between_slashes, directories_hold_what_stands_behind_them,
    every_directory_counts, files_lie_where_paths_say,
};
use crate::paths::{file_name, lies_within, segments, site_path};
use crate::text::{trim, trimmed_pieces};
use crate::text_laws::{entries_stand_between_separators, every_suffix_counts};
use crate::weburl::UrlModel;

verus! {

/// Queues and lists of files hold what their items hold, in order.
pub proof fn queues_hold_their_jobs(jobs: Seq<Job>, files: Seq<SavedFile>, i: int)
    ensures
        job_models(jobs).len() == jobs.len(),
        0 <= i < jobs.len() ==> job_models(jobs)[i].url == jobs[i].url@,
        file_models(files).len() == files.len(),
        0 <= i < files.len() ==> file_models(files)[i].url == files[i].url@ && file_models(
            files,
        )[i].path == files[i].path@,
{
}

/// A job whose file has a name that ends with an entry of the reject list is not fetched,
/// whichever entry it is and whatever stands before it in the name; and every other job is
/// fetched into the file that its URL's path says.
pub proof fn every_rejected_suffix_counts(
    m: CrawlModel,
    job: JobModel,
    start: Seq<char>,
    i: int,
)
    ensures
        0 <= i < m.reject.len() && file_name(job.url.path) == start + m.reject[i] ==> m.target(job)
            is None,
        (forall|j: int|
            0 <= j < m.reject.len() ==> !(#[trigger] m.reject[j]).is_suffix_of(
                file_name(job.url.path),
            )) ==> m.target(job) == Some(site_path(m.output_dir, job.url.path)),
{
    every_suffix_counts(start, m.reject, i);
    every_suffix_counts(file_name(job.url.path), m.reject, i);
}

/// A URL whose path ends with a slash and a name that ends with an entry of the reject list is
/// not fetched.
pub proof fn rejected_paths_are_not_fetched(
    m: CrawlModel,
    job: JobModel,
    dirs: Seq<char>,
    start: Seq<char>,
    i: int,
)
    requires
        0 <= i < m.reject.len(),
        (start + m.reject[i]).len() > 0,
        !(start + m.reject[i]).contains('/'),
        job.url.path == dirs + seq!['/'] + (start + m.reject[i]),
    ensures
        m.target(job) is None,
{
    let name = start + m.reject[i];
    files_lie_where_paths_say(m.output_dir, dirs, name);
    assert(site_path(m.output_dir, job.url.path).last() == name);
    every_rejected_suffix_counts(m, job, start, i);
}

/// No file that was written has a name that ends with an entry of the reject list, as long as
/// only files of jobs that were handed out, for URLs of the web and not rejected, are written.
pub proof fn no_rejected_file_is_written(
    m: CrawlModel,
    events: Seq<CrawlEvent>,
    file: int,
    entry: int,
)
    requires
        m.stays_in_directory(),
        only_fetched_is_saved(m, events),
        links_are_tidy(events),
        0 <= file < after(m, events).downloaded.len(),
        0 <= entry < m.reject.len(),
    ensures
        !m.reject[entry].is_suffix_of(after(m, events).downloaded[file].path.last()),
{
    let end = after(m, events);
    files_stay_in_the_directory(m, events);
    settings_stay(m, events);
    every_suffix_counts(end.downloaded[file].path.last(), m.reject, entry);
}

/// A URL whose path is a directory of the exclude list, or stands behind one and a slash, is
/// neither fetched nor followed, whichever entry it is and however many slashes end the entry.
pub proof fn every_excluded_directory_counts(
    m: CrawlModel,
    url: UrlModel,
    dir: Seq<char>,
    rest: Seq<char>,
    slashes: Seq<char>,
    i: int,
)
    requires
        0 <= i < m.exclude.len(),
        m.exclude[i] == dir + slashes,
        dir.len() > 0 ==> dir.last() != '/',
        forall|k: int| 0 <= k < slashes.len() ==> #[trigger] slashes[k] == '/',
        url.path == dir || url.path == dir + seq!['/'] + rest,
    ensures
        m.excludes(url.path),
        !m.follows(url),
        m.queue.len() > 0 && m.queue[0].url == url && !m.visited.contains(url.text)
            ==> m.next_step() == (StepModel::Excluded { path: url.path }),
{
    directories_hold_what_stands_behind_them(dir, rest, url.path, slashes);
    every_directory_counts(url.path, m.exclude, i);
}

/// A URL that lies in no directory of the exclude list is not excluded.
pub proof fn other_paths_are_not_excluded(m: CrawlModel, url: UrlModel)
    requires
        forall|j: int| 0 <= j < m.exclude.len() ==> !lies_within(url.path, #[trigger] m.exclude[j]),
    ensures
        !m.excludes(url.path),
{
    every_directory_counts(url.path, m.exclude, 0);
}

/// The jobs are taken from the queue in order: the first one is handed out to be fetched, unless
/// its URL was visited before or is excluded; the others stay; and its URL is visited from then
/// on.
pub proof fn jobs_are_taken_in_order(m: CrawlModel, first: JobModel, rest: Seq<JobModel>)
    requires
        m.queue == seq![first] + rest,
    ensures
        m.visited.contains(first.url.text) ==> m.next_step() == (StepModel::AlreadyVisited {
            url: first.url.text,
        }),
        !m.visited.contains(first.url.text) && m.excludes(first.url.path) ==> m.next_step() == (
        StepModel::Excluded { path: first.url.path }),
        !m.visited.contains(first.url.text) && !m.excludes(first.url.path) ==> m.next_step() == (
        StepModel::Fetch { job: first }),
        m.after_next().queue == rest,
        forall|url: Seq<char>| #[trigger]
            m.after_next().visited.contains(url) <==> m.visited.contains(url) || url
                == first.url.text,
        m.after_next().downloaded == m.downloaded,
{
    assert(m.queue[0] == first);
    assert(m.after_next().queue =~= rest);
}

/// Where no job waits, there is nothing to do, and nothing changes.
pub proof fn idle_crawls_stay(m: CrawlModel)
    requires
        m.queue.len() == 0,
    ensures
        m.next_step() is Idle,
        m.after_next() == m,
{
}

/// The links of a page are followed one by one, in order: each that leads to the host of the
/// site, was not visited yet and is not excluded becomes a job, and no other.
pub proof fn links_are_followed_one_by_one(
    m: CrawlModel,
    a: Seq<UrlModel>,
    b: Seq<UrlModel>,
    url: UrlModel,
)
    ensures
        m.jobs_for(a + b) == m.jobs_for(a) + m.jobs_for(b),
        m.jobs_for(Seq::<UrlModel>::empty()).len() == 0,
        url.host == m.base.host && !m.visited.contains(url.text) && !m.excludes(url.path)
            ==> m.jobs_for(seq![url]) == seq![JobModel { url }],
        url.host != m.base.host || m.visited.contains(url.text) || m.excludes(url.path)
            ==> m.jobs_for(seq![url]).len() == 0,
    decreases b.len(),
{
    let none = Seq::<UrlModel>::empty();
    assert(seq![url].drop_last() =~= none);
    assert(m.jobs_for(none) =~= Seq::empty());
    assert(Seq::empty().push(JobModel { url }) =~= seq![JobModel { url }]);
    if b.len() == 0 {
        assert(a + b =~= a);
        assert(m.jobs_for(a) + m.jobs_for(b) =~= m.jobs_for(a));
    } else {
        links_are_followed_one_by_one(m, a, b.drop_last(), url);
        assert((a + b).drop_last() =~= a + b.drop_last());
        assert(m.jobs_for(a + b) =~= m.jobs_for(a) + m.jobs_for(b));
    }
}

/// The jobs for the links of a page wait behind all others, and a file that was written stands
/// behind all others, with its URL and the path that the URL says; nothing else changes.
pub proof fn what_is_found_waits_behind(m: CrawlModel, job: JobModel, links: Seq<UrlModel>)
    ensures
        m.after_links(links).queue == m.queue + m.jobs_for(links),
        m.after_links(links).downloaded == m.downloaded,
        m.after_links(links).visited == m.visited,
        m.after_saved(job, links).queue == m.queue + m.jobs_for(links),
        m.after_saved(job, links).visited == m.visited,
        m.after_saved(job, links).downloaded == m.downloaded + seq![
            SavedModel { url: job.url, path: site_path(m.output_dir, job.url.path) },
        ],
{
    let file = SavedModel { url: job.url, path: site_path(m.output_dir, job.url.path) };
    assert(m.downloaded.push(file) =~= m.downloaded + seq![file]);
}

/// A crawl begins with nothing visited, nothing written and the URL of its site as its one job,
/// in the directory that is named after the host.
pub proof fn crawls_begin_with_their_url(base: UrlModel, host: Seq<char>, args: WgetArgs)
    ensures
        ({
            let m = start_model(base, host, args);
            &&& m.base == base
            &&& m.queue == seq![JobModel { url: base }]
            &&& m.downloaded.len() == 0
            &&& forall|url: Seq<char>| !(#[trigger] m.visited.contains(url))
            &&& m.output_dir == segments(host)
            &&& host.len() > 0 && !host.contains('/') ==> m.output_dir == seq![host]
            &&& args.reject is None ==> m.reject.len() == 0
            &&& args.exclude is None ==> m.exclude.len() == 0
        }),
{
    if host.len() > 0 && !host.contains('/') {
        components_stand_between_slashes(host, host, host);
    }
}

/// Every entry of the reject list and of the exclude list is a filter, trimmed: the one that
/// stands before all commas, between two of them, or behind all of them.
pub proof fn every_entry_is_a_filter(
    base: UrlModel,
    host: Seq<char>,
    args: WgetArgs,
    before: Seq<char>,
    entry: Seq<char>,
    behind: Seq<char>,
)
    requires
        !entry.contains(','),
        trim(entry).len() > 0,
    ensures
        ({
            let m = start_model(base, host, args);
            let first = entry + seq![','] + behind;
            let last = before + seq![','] + entry;
            let inner = before + seq![','] + (entry + seq![','] + behind);
            &&& args.reject matches Some(list) ==> (list@ == entry || list@ == first || list@
                == last || list@ == inner) ==> m.reject.contains(trim(entry))
            &&& args.exclude matches Some(list) ==> (list@ == entry || list@ == first || list@
                == last || list@ == inner) ==> m.exclude.contains(trim(entry))
            &&& args.reject matches Some(list) ==> list@ == entry ==> m.reject == seq![trim(entry)]
            &&& args.exclude matches Some(list) ==> list@ == entry ==> m.exclude == seq![
                trim(entry),
            ]
        }),
{
    let first = entry + seq![','] + behind;
    entries_stand_between_separators(entry, behind, ',');
    entries_stand_between_separators(before, entry, ',');
    entries_stand_between_separators(before, first, ',');
    let one = seq![trim(entry)];
    let x = trimmed_pieces(before, ',');
    let y = trimmed_pieces(behind, ',');
    assert(one[0] == trim(entry));
    assert((one + y)[0] == trim(entry));
    assert((x + one)[x.len() as int] == trim(entry));
    assert((x + (one + y))[x.len() as int] == trim(entry));
}

} // verus!
