//! What holds of every crawl, whatever pages the site is made of and in whatever order they
//! arrive.

use vstd::prelude::*;
use crate::cli::WgetArgs;
use crate::convert::offline_link;
use crate::mirror::{start_model, CrawlModel, JobModel, SavedModel, StepModel};
use crate::paths::{all_names, lemma_site_path_lies_below, lies_below, segments};
use crate::relative::{relative_links_lead_to_files, walk};
use crate::text::{entries_are_clean, trimmed_pieces};
use crate::weburl::{all_tidy, is_tidy, is_web, UrlModel};

verus! {

/// What happens to a crawl.
pub enum CrawlEvent {
    /// The next job is taken from the queue.
    Next,
    /// A job's file was written; it holds these links.
    Saved { job: JobModel, links: Seq<UrlModel> },
}

/// The state of a crawl after events.
pub open spec fn after(m: CrawlModel, events: Seq<CrawlEvent>) -> CrawlModel
    decreases events.len(),
{
    if events.len() == 0 {
        m
    } else {
        let before = after(m, events.drop_last());
        match events.last() {
            CrawlEvent::Next => before.after_next(),
            CrawlEvent::Saved { job, links } => before.after_saved(job, links),
        }
    }
}

/// The jobs that were handed out to be fetched.
pub open spec fn fetched(m: CrawlModel, events: Seq<CrawlEvent>) -> Seq<JobModel>
    decreases events.len(),
{
    if events.len() == 0 {
        Seq::empty()
    } else {
        let earlier = fetched(m, events.drop_last());
        match (events.last(), after(m, events.drop_last()).next_step()) {
            (CrawlEvent::Next, StepModel::Fetch { job }) => earlier.push(job),
            _ => earlier,
        }
    }
}

/// Every file that was written is that of a job handed out before, for a URL of the web, and no
/// rejected one.
pub open spec fn only_fetched_is_saved(m: CrawlModel, events: Seq<CrawlEvent>) -> bool {
    forall|k: int|
        0 <= k < events.len() ==> ((#[trigger] events[k]) matches CrawlEvent::Saved { job, links }
            ==> fetched(m, events.take(k)).contains(job) && is_web(job.url) && m.target(job) is Some)
}

/// The site, its directory and the filters stay what they were.
pub proof fn settings_stay(m: CrawlModel, events: Seq<CrawlEvent>)
    ensures
        after(m, events).base == m.base,
        after(m, events).output_dir == m.output_dir,
        after(m, events).reject == m.reject,
        after(m, events).exclude == m.exclude,
    decreases events.len(),
{
    if events.len() > 0 {
        settings_stay(m, events.drop_last());
    }
}

/// A URL that was visited stays visited.
pub proof fn visited_stays_visited(m: CrawlModel, events: Seq<CrawlEvent>, url: Seq<char>)
    requires
        m.visited.contains(url),
    ensures
        after(m, events).visited.contains(url),
    decreases events.len(),
{
    if events.len() > 0 {
        visited_stays_visited(m, events.drop_last(), url);
    }
}

/// No URL is fetched twice, nor one that was visited before, and what was fetched is visited.
pub proof fn each_url_is_fetched_once(m: CrawlModel, events: Seq<CrawlEvent>)
    ensures
        forall|i: int, j: int|
            0 <= i < j < fetched(m, events).len() ==> (#[trigger] fetched(m, events)[i]).url.text != (
            #[trigger] fetched(m, events)[j]).url.text,
        forall|i: int|
            0 <= i < fetched(m, events).len() ==> !m.visited.contains(
                (#[trigger] fetched(m, events)[i]).url.text,
            ) && after(m, events).visited.contains(fetched(m, events)[i].url.text),
    decreases events.len(),
{
    if events.len() > 0 {
        let front = events.drop_last();
        each_url_is_fetched_once(m, front);
        let now = after(m, front);
        if let (CrawlEvent::Next, StepModel::Fetch { job }) = (events.last(), now.next_step()) {
            if m.visited.contains(job.url.text) {
                visited_stays_visited(m, front, job.url.text);
            }
        }
    }
}

/// Every job that is handed out leads to the host of the site.
pub proof fn only_the_host_is_fetched(m: CrawlModel, events: Seq<CrawlEvent>)
    requires
        m.stays_on_host(),
    ensures
        after(m, events).stays_on_host(),
        forall|i: int|
            0 <= i < fetched(m, events).len() ==> (#[trigger] fetched(m, events)[i]).url.host
                == m.base.host,
    decreases events.len(),
{
    if events.len() > 0 {
        let front = events.drop_last();
        only_the_host_is_fetched(m, front);
        settings_stay(m, front);
        let now = after(m, front);
        if let CrawlEvent::Saved { job, links } = events.last() {
            lemma_jobs_are_followed(now, links);
            let next = now.after_saved(job, links);
            assert forall|i: int| 0 <= i < next.queue.len() implies (
            #[trigger] next.queue[i]).url.host == m.base.host by {
                if i < now.queue.len() {
                    assert(next.queue[i] == now.queue[i]);
                } else {
                    assert(next.queue[i] == now.jobs_for(links)[i - now.queue.len()]);
                }
            }
        } else {
            let next = now.after_next();
            assert forall|i: int| 0 <= i < next.queue.len() implies (
            #[trigger] next.queue[i]).url.host == m.base.host by {
                if now.queue.len() > 0 {
                    assert(next.queue[i] == now.queue[i + 1]);
                }
            }
        }
    }
}

/// No job in an excluded directory is handed out.
pub proof fn excluded_paths_are_not_fetched(m: CrawlModel, events: Seq<CrawlEvent>)
    ensures
        forall|i: int|
            0 <= i < fetched(m, events).len() ==> !m.excludes(
                (#[trigger] fetched(m, events)[i]).url.path,
            ),
    decreases events.len(),
{
    if events.len() > 0 {
        excluded_paths_are_not_fetched(m, events.drop_last());
        settings_stay(m, events.drop_last());
    }
}

/// What is followed is on the host.
proof fn lemma_jobs_are_followed(m: CrawlModel, links: Seq<UrlModel>)
    ensures
        forall|i: int|
            0 <= i < m.jobs_for(links).len() ==> (#[trigger] m.jobs_for(links)[i]).url.host
                == m.base.host,
    decreases links.len(),
{
    if links.len() > 0 {
        lemma_jobs_are_followed(m, links.drop_last());
    }
}

/// What is followed has a path made of names, where all links of the web have.
proof fn lemma_jobs_are_tidy(m: CrawlModel, links: Seq<UrlModel>)
    requires
        all_tidy(links),
    ensures
        forall|i: int|
            0 <= i < m.jobs_for(links).len() ==> is_tidy((#[trigger] m.jobs_for(links)[i]).url),
    decreases links.len(),
{
    if links.len() > 0 {
        let front = links.drop_last();
        assert forall|i: int| 0 <= i < front.len() implies is_tidy(#[trigger] front[i]) by {
            assert(front[i] == links[i]);
        }
        lemma_jobs_are_tidy(m, front);
        assert(is_tidy(links[links.len() - 1]));
    }
}

/// Whether the links that the pages hold have paths made of names, where they are URLs of the
/// web.
pub open spec fn links_are_tidy(events: Seq<CrawlEvent>) -> bool {
    forall|k: int|
        0 <= k < events.len() ==> ((#[trigger] events[k]) matches CrawlEvent::Saved { job, links }
            ==> all_tidy(links))
}

/// Every file is written below the directory of the site, and none with a rejected suffix, as
/// long as only files of jobs that were handed out, for URLs of the web and not rejected, are
/// written.
pub proof fn files_stay_in_the_directory(m: CrawlModel, events: Seq<CrawlEvent>)
    requires
        m.stays_in_directory(),
        only_fetched_is_saved(m, events),
        links_are_tidy(events),
    ensures
        after(m, events).stays_in_directory(),
        forall|i: int|
            0 <= i < fetched(m, events).len() ==> is_tidy((#[trigger] fetched(m, events)[i]).url),
    decreases events.len(),
{
    if events.len() > 0 {
        let front = events.drop_last();
        assert forall|k: int| 0 <= k < front.len() implies ((
        #[trigger] front[k]) matches CrawlEvent::Saved { job, links } ==> fetched(
            m,
            front.take(k),
        ).contains(job) && is_web(job.url) && m.target(job) is Some) by {
            assert(front[k] == events[k]);
            assert(front.take(k) =~= events.take(k));
        }
        assert forall|k: int| 0 <= k < front.len() implies ((
        #[trigger] front[k]) matches CrawlEvent::Saved { job, links } ==> all_tidy(links)) by {
            assert(front[k] == events[k]);
        }
        files_stay_in_the_directory(m, front);
        settings_stay(m, front);
        let now = after(m, front);
        match events.last() {
            CrawlEvent::Next => {
                let next = now.after_next();
                assert forall|i: int| 0 <= i < next.queue.len() implies is_tidy(
                    (#[trigger] next.queue[i]).url,
                ) by {
                    if now.queue.len() > 0 {
                        assert(next.queue[i] == now.queue[i + 1]);
                    }
                }
            },
            CrawlEvent::Saved { job, links } => {
                assert(events[events.len() - 1] == events.last());
                assert(events.take(events.len() - 1) =~= front);
                let k = choose|k: int|
                    0 <= k < fetched(m, front).len() && fetched(m, front)[k] == job;
                assert(is_tidy(fetched(m, front)[k].url));
                let next = now.after_saved(job, links);
                lemma_jobs_are_tidy(now, links);
                assert forall|i: int| 0 <= i < next.queue.len() implies is_tidy(
                    (#[trigger] next.queue[i]).url,
                ) by {
                    if i < now.queue.len() {
                        assert(next.queue[i] == now.queue[i]);
                    } else {
                        assert(next.queue[i] == now.jobs_for(links)[i - now.queue.len()]);
                    }
                }
                lemma_site_path_lies_below(now.output_dir, job.url.path);
                let file = SavedModel { url: job.url, path: now.file_for(job.url) };
                assert forall|i: int| 0 <= i < next.downloaded.len() implies lies_below(
                    (#[trigger] next.downloaded[i]).path,
                    next.output_dir,
                ) && !next.rejects(next.downloaded[i].path.last()) by {
                    if i < now.downloaded.len() {
                        assert(next.downloaded[i] == now.downloaded[i]);
                    } else {
                        assert(next.downloaded[i] == file);
                    }
                }
            },
        }
    }
}

/// A crawl begins on the host and in the directory of its site.
pub proof fn crawls_begin_in_bounds(base: UrlModel, host: Seq<char>, args: WgetArgs)
    requires
        is_tidy(base),
    ensures
        start_model(base, host, args).stays_on_host(),
        start_model(base, host, args).stays_in_directory(),
{
}

/// No filter is empty: an empty one would reject or exclude everything.
pub proof fn filters_are_not_empty(base: UrlModel, host: Seq<char>, args: WgetArgs)
    ensures
        ({
            let m = start_model(base, host, args);
            &&& forall|i: int| 0 <= i < m.reject.len() ==> (#[trigger] m.reject[i]).len() > 0
            &&& forall|i: int| 0 <= i < m.exclude.len() ==> (#[trigger] m.exclude[i]).len() > 0
        }),
{
    let m = start_model(base, host, args);
    if let Some(list) = args.reject {
        entries_are_clean(list@, ',');
        assert(m.reject == trimmed_pieces(list@, ','));
    }
    if let Some(list) = args.exclude {
        entries_are_clean(list@, ',');
        assert(m.exclude == trimmed_pieces(list@, ','));
    }
}

/// Whether every link that the pages hold is one of `site`.
pub open spec fn links_within(events: Seq<CrawlEvent>, site: Set<Seq<char>>) -> bool {
    forall|k: int, i: int|
        0 <= k < events.len() && events[k] is Saved && 0 <= i < events[k]->links.len()
            ==> site.contains((#[trigger] events[k]->links[i]).text)
}

/// Whether every job that waits is one of `site`.
pub open spec fn queue_within(m: CrawlModel, site: Set<Seq<char>>) -> bool {
    forall|i: int| 0 <= i < m.queue.len() ==> site.contains((#[trigger] m.queue[i]).url.text)
}

/// What is followed is a link.
proof fn lemma_jobs_are_links(m: CrawlModel, links: Seq<UrlModel>)
    ensures
        forall|i: int|
            0 <= i < m.jobs_for(links).len() ==> exists|j: int|
                0 <= j < links.len() && #[trigger] links[j] == (#[trigger] m.jobs_for(
                    links,
                )[i]).url,
    decreases links.len(),
{
    if links.len() > 0 {
        let front = links.drop_last();
        lemma_jobs_are_links(m, front);
        let jobs = m.jobs_for(links);
        let earlier = m.jobs_for(front);
        assert forall|i: int| 0 <= i < jobs.len() implies exists|j: int|
            0 <= j < links.len() && #[trigger] links[j] == (#[trigger] jobs[i]).url by {
            if i < earlier.len() {
                assert(jobs[i] == earlier[i]);
                let j = choose|j: int|
                    0 <= j < front.len() && #[trigger] front[j] == earlier[i].url;
                assert(links[j] == jobs[i].url);
            } else {
                assert(links[links.len() - 1] == jobs[i].url);
            }
        }
    }
}

/// Only URLs that waited or were linked are fetched.
pub proof fn only_links_are_fetched(
    m: CrawlModel,
    events: Seq<CrawlEvent>,
    site: Set<Seq<char>>,
)
    requires
        queue_within(m, site),
        links_within(events, site),
    ensures
        queue_within(after(m, events), site),
        forall|i: int|
            0 <= i < fetched(m, events).len() ==> site.contains(
                (#[trigger] fetched(m, events)[i]).url.text,
            ),
    decreases events.len(),
{
    if events.len() > 0 {
        let front = events.drop_last();
        assert forall|k: int, i: int|
            0 <= k < front.len() && front[k] is Saved && 0 <= i
                < front[k]->links.len() implies site.contains(
            (#[trigger] front[k]->links[i]).text,
        ) by {
            assert(front[k] == events[k]);
            assert(site.contains(events[k]->links[i].text));
        }
        only_links_are_fetched(m, front, site);
        let now = after(m, front);
        match events.last() {
            CrawlEvent::Next => {
                let next = now.after_next();
                assert forall|i: int| 0 <= i < next.queue.len() implies site.contains(
                    (#[trigger] next.queue[i]).url.text,
                ) by {
                    if now.queue.len() > 0 {
                        assert(next.queue[i] == now.queue[i + 1]);
                    }
                }
            },
            CrawlEvent::Saved { job, links } => {
                let next = now.after_saved(job, links);
                let jobs = now.jobs_for(links);
                lemma_jobs_are_links(now, links);
                assert forall|i: int| 0 <= i < next.queue.len() implies site.contains(
                    (#[trigger] next.queue[i]).url.text,
                ) by {
                    if i < now.queue.len() {
                        assert(next.queue[i] == now.queue[i]);
                    } else {
                        assert(next.queue[i] == jobs[i - now.queue.len()]);
                        let j = choose|j: int|
                            0 <= j < links.len() && #[trigger] links[j] == next.queue[i].url;
                        let k = events.len() - 1;
                        assert(events[k]->links[j] == links[j]);
                    }
                }
            },
        }
    }
}

/// A site of finitely many URLs is mirrored with no more requests than it has URLs.
pub proof fn requests_are_bounded(m: CrawlModel, events: Seq<CrawlEvent>, site: Set<Seq<char>>)
    requires
        site.finite(),
        queue_within(m, site),
        links_within(events, site),
    ensures
        fetched(m, events).len() <= site.len(),
{
    let jobs = fetched(m, events);
    let urls = jobs.map_values(|j: JobModel| j.url.text);
    each_url_is_fetched_once(m, events);
    only_links_are_fetched(m, events, site);
    assert(urls.no_duplicates()) by {
        assert forall|i: int, j: int|
            0 <= i < urls.len() && 0 <= j < urls.len() && i != j implies urls[i] != urls[j] by {
            if i < j {
                assert(jobs[i].url.text != jobs[j].url.text);
            } else {
                assert(jobs[j].url.text != jobs[i].url.text);
            }
        }
    }
    urls.unique_seq_to_set();
    assert(urls.to_set().subset_of(site)) by {
        assert forall|u: Seq<char>| urls.to_set().contains(u) implies site.contains(u) by {
            let i = choose|i: int| 0 <= i < urls.len() && urls[i] == u;
            assert(site.contains(jobs[i].url.text));
        }
    }
    vstd::set_lib::lemma_len_subset(urls.to_set(), site);
}

/// Whether a URL was taken from the queue or waits in it.
pub open spec fn is_noted(m: CrawlModel, url: Seq<char>) -> bool {
    m.visited.contains(url) || exists|i: int|
        0 <= i < m.queue.len() && (#[trigger] m.queue[i]).url.text == url
}

/// A URL that was noted stays noted.
proof fn lemma_noted_stays_noted(m: CrawlModel, event: CrawlEvent, url: Seq<char>)
    requires
        is_noted(m, url),
    ensures
        is_noted(after(m, seq![event]), url),
{
    let next = after(m, seq![event]);
    assert(seq![event].drop_last() =~= Seq::empty());
    assert(after(m, Seq::empty()) == m);
    if !m.visited.contains(url) {
        let i = choose|i: int| 0 <= i < m.queue.len() && (#[trigger] m.queue[i]).url.text == url;
        match event {
            CrawlEvent::Next => {
                if i > 0 {
                    assert(next.queue[i - 1] == m.queue[i]);
                }
            },
            CrawlEvent::Saved { job, links } => {
                assert(next.queue[i] == m.queue[i]);
            },
        }
    }
}

/// A link on the host of the site that is not excluded is noted.
proof fn lemma_links_are_noted(m: CrawlModel, links: Seq<UrlModel>, i: int)
    requires
        0 <= i < links.len(),
        m.follows(links[i]),
    ensures
        exists|j: int|
            0 <= j < m.jobs_for(links).len() && (#[trigger] m.jobs_for(links)[j]).url == links[i],
    decreases links.len(),
{
    let front = links.drop_last();
    let jobs = m.jobs_for(links);
    if i < front.len() {
        assert(front[i] == links[i]);
        lemma_links_are_noted(m, front, i);
        let j = choose|j: int|
            0 <= j < m.jobs_for(front).len() && (#[trigger] m.jobs_for(front)[j]).url == links[i];
        assert(jobs[j] == m.jobs_for(front)[j]);
    } else {
        assert(jobs[jobs.len() - 1].url == links[i]);
    }
}

/// What waited, and every link on the host of the site that is not excluded, stays noted.
proof fn lemma_everything_is_noted(m: CrawlModel, events: Seq<CrawlEvent>)
    ensures
        forall|q: int|
            0 <= q < m.queue.len() ==> is_noted(
                after(m, events),
                (#[trigger] m.queue[q]).url.text,
            ),
        forall|k: int, i: int|
            0 <= k < events.len() && events[k] is Saved && 0 <= i < events[k]->links.len() ==> {
                let u = #[trigger] events[k]->links[i];
                u.host == m.base.host && !m.excludes(u.path) ==> is_noted(after(m, events), u.text)
            },
    decreases events.len(),
{
    if events.len() > 0 {
        let front = events.drop_last();
        let now = after(m, front);
        let next = after(m, events);
        let event = events.last();
        lemma_everything_is_noted(m, front);
        settings_stay(m, front);
        assert(next == after(now, seq![event])) by {
            assert(seq![event].drop_last() =~= Seq::empty());
            assert(after(now, Seq::empty()) == now);
        }
        assert forall|q: int| 0 <= q < m.queue.len() implies is_noted(
            next,
            (#[trigger] m.queue[q]).url.text,
        ) by {
            lemma_noted_stays_noted(now, event, m.queue[q].url.text);
        }
        assert forall|k: int, i: int|
            0 <= k < events.len() && events[k] is Saved && 0 <= i < events[k]->links.len() implies {
            let u = #[trigger] events[k]->links[i];
            u.host == m.base.host && !m.excludes(u.path) ==> is_noted(next, u.text)
        } by {
            let u = events[k]->links[i];
            if u.host == m.base.host && !m.excludes(u.path) {
                if k < front.len() {
                    assert(front[k] == events[k]);
                    assert(front[k]->links[i] == u);
                    lemma_noted_stays_noted(now, event, u.text);
                } else if now.visited.contains(u.text) {
                    lemma_noted_stays_noted(now, event, u.text);
                } else {
                    let links = events[k]->links;
                    lemma_links_are_noted(now, links, i);
                    let j = choose|j: int|
                        0 <= j < now.jobs_for(links).len() && (#[trigger] now.jobs_for(
                            links,
                        )[j]).url == links[i];
                    assert(next.queue[now.queue.len() + j] == now.jobs_for(links)[j]);
                }
            }
        }
    } else {
        assert forall|q: int| 0 <= q < m.queue.len() implies is_noted(
            after(m, events),
            (#[trigger] m.queue[q]).url.text,
        ) by {}
    }
}

/// Nothing is left behind: once no job waits, every URL that waited at first was visited, and
/// so was every link of a page that leads to the host of the site and into no excluded
/// directory.
pub proof fn nothing_is_left_behind(m: CrawlModel, events: Seq<CrawlEvent>)
    requires
        after(m, events).queue.len() == 0,
    ensures
        forall|q: int|
            0 <= q < m.queue.len() ==> after(m, events).visited.contains(
                (#[trigger] m.queue[q]).url.text,
            ),
        forall|k: int, i: int|
            0 <= k < events.len() && events[k] is Saved && 0 <= i < events[k]->links.len() ==> {
                let u = #[trigger] events[k]->links[i];
                u.host == m.base.host && !m.excludes(u.path) ==> after(
                    m,
                    events,
                ).visited.contains(u.text)
            },
{
    lemma_everything_is_noted(m, events);
    let end = after(m, events);
    assert forall|q: int| 0 <= q < m.queue.len() implies end.visited.contains(
        (#[trigger] m.queue[q]).url.text,
    ) by {
        assert(is_noted(end, m.queue[q].url.text));
    }
    assert forall|k: int, i: int|
        0 <= k < events.len() && events[k] is Saved && 0 <= i < events[k]->links.len() implies {
        let u = #[trigger] events[k]->links[i];
        u.host == m.base.host && !m.excludes(u.path) ==> end.visited.contains(u.text)
    } by {
        let u = events[k]->links[i];
        if u.host == m.base.host && !m.excludes(u.path) {
            assert(is_noted(end, u.text));
        }
    }
}

/// The jobs that were taken from the queue and not handed out, because their URLs lie in an
/// excluded directory.
pub open spec fn passed_over(m: CrawlModel, events: Seq<CrawlEvent>) -> Seq<JobModel>
    decreases events.len(),
{
    if events.len() == 0 {
        Seq::empty()
    } else {
        let front = events.drop_last();
        let earlier = passed_over(m, front);
        let now = after(m, front);
        match (events.last(), now.next_step()) {
            (CrawlEvent::Next, StepModel::Excluded { path }) => earlier.push(now.queue[0]),
            _ => earlier,
        }
    }
}

/// Whether one of the jobs is for a URL.
pub open spec fn is_among(url: Seq<char>, jobs: Seq<JobModel>) -> bool {
    exists|i: int| 0 <= i < jobs.len() && (#[trigger] jobs[i]).url.text == url
}

/// Whatever was visited was handed out to be fetched, unless it had been visited before or
/// lies in an excluded directory.
pub proof fn what_is_visited_was_fetched(m: CrawlModel, events: Seq<CrawlEvent>)
    ensures
        forall|u: Seq<char>| #[trigger]
            after(m, events).visited.contains(u) ==> m.visited.contains(u) || is_among(
                u,
                fetched(m, events),
            ) || is_among(u, passed_over(m, events)),
        forall|i: int|
            0 <= i < passed_over(m, events).len() ==> m.excludes(
                (#[trigger] passed_over(m, events)[i]).url.path,
            ),
    decreases events.len(),
{
    if events.len() > 0 {
        let front = events.drop_last();
        what_is_visited_was_fetched(m, front);
        settings_stay(m, front);
        let now = after(m, front);
        let before_fetched = fetched(m, front);
        let before_passed = passed_over(m, front);
        let all_fetched = fetched(m, events);
        let all_passed = passed_over(m, events);
        assert forall|u: Seq<char>| #[trigger]
            after(m, events).visited.contains(u) implies m.visited.contains(u) || is_among(
            u,
            all_fetched,
        ) || is_among(u, all_passed) by {
            if now.visited.contains(u) {
                if is_among(u, before_fetched) {
                    let i = choose|i: int|
                        0 <= i < before_fetched.len() && (#[trigger] before_fetched[i]).url.text
                            == u;
                    assert(all_fetched[i] == before_fetched[i]);
                } else if is_among(u, before_passed) {
                    let i = choose|i: int|
                        0 <= i < before_passed.len() && (#[trigger] before_passed[i]).url.text
                            == u;
                    assert(all_passed[i] == before_passed[i]);
                }
            } else {
                assert(u == now.queue[0].url.text);
                if now.excludes(now.queue[0].url.path) {
                    assert(all_passed[all_passed.len() - 1].url.text == u);
                } else {
                    assert(all_fetched[all_fetched.len() - 1].url.text == u);
                }
            }
        }
    }
}

/// The URLs that wait, those that were handed out and those that were passed over are tidy.
proof fn lemma_jobs_stay_tidy(m: CrawlModel, events: Seq<CrawlEvent>)
    requires
        m.waits_for_tidy_urls(),
        links_are_tidy(events),
    ensures
        after(m, events).waits_for_tidy_urls(),
        forall|i: int|
            0 <= i < fetched(m, events).len() ==> is_tidy((#[trigger] fetched(m, events)[i]).url),
        forall|i: int|
            0 <= i < passed_over(m, events).len() ==> is_tidy(
                (#[trigger] passed_over(m, events)[i]).url,
            ),
    decreases events.len(),
{
    if events.len() > 0 {
        let front = events.drop_last();
        assert forall|k: int| 0 <= k < front.len() implies ((
        #[trigger] front[k]) matches CrawlEvent::Saved { job, links } ==> all_tidy(links)) by {
            assert(front[k] == events[k]);
        }
        lemma_jobs_stay_tidy(m, front);
        let now = after(m, front);
        let next = after(m, events);
        match events.last() {
            CrawlEvent::Next => {
                assert forall|i: int| 0 <= i < next.queue.len() implies is_tidy(
                    (#[trigger] next.queue[i]).url,
                ) by {
                    if now.queue.len() > 0 {
                        assert(next.queue[i] == now.queue[i + 1]);
                    }
                }
            },
            CrawlEvent::Saved { job, links } => {
                assert(events[events.len() - 1] == events.last());
                lemma_jobs_are_tidy(now, links);
                assert forall|i: int| 0 <= i < next.queue.len() implies is_tidy(
                    (#[trigger] next.queue[i]).url,
                ) by {
                    if i < now.queue.len() {
                        assert(next.queue[i] == now.queue[i]);
                    } else {
                        assert(next.queue[i] == now.jobs_for(links)[i - now.queue.len()]);
                    }
                }
            },
        }
    }
}

/// Whether a URL is to be fetched: it is one of the web's, was not visited before the crawl and
/// lies in no excluded directory.
pub open spec fn is_due(m: CrawlModel, url: UrlModel) -> bool {
    is_web(url) && !m.visited.contains(url.text) && !m.excludes(url.path)
}

/// The whole site is mirrored: once no job waits, every URL of the web that waited at first,
/// and every link of a page to such a URL on the host of the site, was handed out to be
/// fetched, unless it had been visited before or lies in an excluded directory.
pub proof fn the_whole_site_is_fetched(m: CrawlModel, events: Seq<CrawlEvent>)
    requires
        after(m, events).queue.len() == 0,
        m.waits_for_tidy_urls(),
        links_are_tidy(events),
    ensures
        forall|q: int|
            0 <= q < m.queue.len() && is_due(m, (#[trigger] m.queue[q]).url) ==> is_among(
                m.queue[q].url.text,
                fetched(m, events),
            ),
        forall|k: int, i: int|
            0 <= k < events.len() && events[k] is Saved && 0 <= i < events[k]->links.len() ==> {
                let u = #[trigger] events[k]->links[i];
                u.host == m.base.host && is_due(m, u) ==> is_among(u.text, fetched(m, events))
            },
{
    nothing_is_left_behind(m, events);
    assert forall|q: int| 0 <= q < m.queue.len() && is_due(
        m,
        (#[trigger] m.queue[q]).url,
    ) implies is_among(m.queue[q].url.text, fetched(m, events)) by {
        lemma_due_urls_are_fetched(m, events, m.queue[q].url);
    }
    assert forall|k: int, i: int|
        0 <= k < events.len() && events[k] is Saved && 0 <= i < events[k]->links.len() implies {
        let u = #[trigger] events[k]->links[i];
        u.host == m.base.host && is_due(m, u) ==> is_among(u.text, fetched(m, events))
    } by {
        let u = events[k]->links[i];
        if u.host == m.base.host && is_due(m, u) {
            assert(events[k] matches CrawlEvent::Saved { job, links } ==> all_tidy(links));
            lemma_due_urls_are_fetched(m, events, u);
        }
    }
}

/// A due URL that was visited was handed out: no other URL of the same text lies in an excluded
/// directory.
proof fn lemma_due_urls_are_fetched(m: CrawlModel, events: Seq<CrawlEvent>, url: UrlModel)
    requires
        m.waits_for_tidy_urls(),
        links_are_tidy(events),
        is_tidy(url),
        is_due(m, url),
        after(m, events).visited.contains(url.text),
    ensures
        is_among(url.text, fetched(m, events)),
{
    let passed = passed_over(m, events);
    what_is_visited_was_fetched(m, events);
    lemma_jobs_stay_tidy(m, events);
    if is_among(url.text, passed) {
        let i = choose|i: int| 0 <= i < passed.len() && (#[trigger] passed[i]).url.text == url.text;
        assert(m.excludes(passed[i].url.path));
        assert(is_tidy(passed[i].url));
    }
}

/// A rewritten link leads to the file that is written for its URL: in the file that was written
/// for the URL `page`, a link that denotes `url` becomes a path that leads, from the directory
/// in which the file lies, to the file for `url`; for two URLs of the web on one host, and a
/// site whose directory is a path made of names.
pub proof fn links_lead_to_written_files(m: CrawlModel, page: UrlModel, url: UrlModel)
    requires
        is_web(page) && is_tidy(page),
        is_web(url) && is_tidy(url),
        url.host == page.host,
        all_names(m.output_dir),
    ensures
        offline_link(Ok(url), page, m.file_for(page), m.output_dir) matches Some(link) && walk(
            m.file_for(page).drop_last(),
            segments(link),
        ) == m.file_for(url),
{
    relative_links_lead_to_files(url, page, m.output_dir);
}

} // verus!
