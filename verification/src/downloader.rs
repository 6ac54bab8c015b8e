//! Downloading single files: their names and places, and the pace of a transfer.

use vstd::prelude::*;
use vstd::string::StringExecFns;
use crate::cli::{optional_text, parse_rate_limit, rate_bytes, WgetArgs};
use crate::decimal::{decimal, push_decimal};
use crate::error::{ErrorModel, WgetError};
use crate::logger::{file_size_text, format_file_size};
use crate::paths::{join_path, path_join};
use crate::text::{
    first_char, lemma_split_len, non_empty_trimmed_pieces, pieces, split, texts, trimmed_pieces,
};
use crate::weburl::{url_parse, WebUrl};

verus! {

/// The part of a URL's path behind its last slash; a path that does not begin with a slash
/// has no parts.
pub open spec fn last_segment(path: Seq<char>) -> Option<Seq<char>> {
    if path.len() > 0 && path[0] == '/' {
        Some(split(path, '/').last())
    } else {
        None
    }
}

/// The name of the file for a URL's path: the one that the user chose, else the last part of
/// the path; a path that has none, or an empty one, stands for its index.
pub open spec fn download_name(path: Seq<char>, chosen: Option<Seq<char>>) -> Seq<char> {
    match chosen {
        Some(name) => name,
        None => match last_segment(path) {
            Some(name) if name.len() > 0 => name,
            _ => "index.html"@,
        },
    }
}

/// Where a file is saved: in the directory that the user chose, if any.
pub open spec fn save_path_text(directory: Option<Seq<char>>, name: Seq<char>) -> Seq<char> {
    match directory {
        Some(directory) => path_join(directory, name),
        None => name,
    }
}

/// The URLs of a list, one on a line.
pub fn read_url_list(content: &str) -> (r: Vec<String>)
    ensures
        texts(r@) == trimmed_pieces(content@, '\n'),
{
    non_empty_trimmed_pieces(content, '\n')
}

/// The name of the file for a URL's path.
pub fn choose_file_name(url: &WebUrl, chosen: &Option<String>) -> (r: String)
    ensures
        r@ == download_name(url@.path, optional_text(*chosen)),
{
    match chosen {
        Some(name) => name.clone(),
        None => {
            if let Some(c) = first_char(url.path.as_str()) {
                if c == '/' {
                    let parts = pieces(url.path.as_str(), '/');
                    proof {
                        lemma_split_len(url@.path, '/');
                        assert(texts(parts@).len() == parts@.len());
                        assert(texts(parts@).last() == parts@.last()@);
                    }
                    let last = &parts[parts.len() - 1];
                    if !last.as_str().is_empty() {
                        return last.clone();
                    }
                }
            }
            "index.html".to_string()
        },
    }
}

/// Where a file is saved.
pub fn choose_save_path(directory: &Option<String>, name: &str) -> (r: String)
    ensures
        r@ == save_path_text(optional_text(*directory), name@),
{
    match directory {
        Some(directory) => join_path(directory.as_str(), name),
        None => name.to_owned(),
    }
}

/// Where the file for a URL is saved.
pub fn save_path(url: &str, args: &WgetArgs) -> (r: Result<String, WgetError>)
    ensures
        match url_parse(url@) {
            Ok(parsed) => r matches Ok(path) && path@ == save_path_text(
                optional_text(args.directory),
                download_name(parsed.path, optional_text(args.output_file)),
            ),
            Err(reason) => r matches Err(e) && e@ == ErrorModel::InvalidUrl(reason),
        },
{
    match WebUrl::parse(url) {
        Ok(parsed) => {
            let name = choose_file_name(&parsed, &args.output_file);
            Ok(choose_save_path(&args.directory, name.as_str()))
        },
        Err(reason) => Err(WgetError::InvalidUrl(reason)),
    }
}

/// What the log says of a response's length.
pub fn content_size_message(content_length: u64) -> (r: String)
    ensures
        r@ == "content size: "@ + decimal(content_length as nat) + " [~"@ + file_size_text(
            content_length as nat,
        ) + "]"@,
{
    let mut text = "content size: ".to_string();
    push_decimal(&mut text, content_length);
    text.append(" [~");
    text.append(format_file_size(content_length).as_str());
    text.append("]");
    text
}

/// A transfer under way.
#[derive(Clone, Copy, Debug)]
pub struct Transfer {
    /// The bytes that may arrive in a second.
    pub limit: Option<u64>,
    /// Whether progress goes to the log.
    pub background: bool,
    /// The bytes that arrived.
    pub downloaded: u64,
}

/// Progress is reported whenever a multiple of this many bytes arrived.
pub const REPORT_INTERVAL: u64 = 1048576;

impl Transfer {
    /// Begins a transfer with the options of the run.
    pub fn begin(args: &WgetArgs) -> (r: Transfer)
        ensures
            r.downloaded == 0,
            r.background == args.background,
            match r.limit {
                Some(bytes) => args.rate_limit matches Some(limit) && rate_bytes(limit@) == Some(
                    bytes as nat,
                ),
                None => args.rate_limit matches Some(limit) ==> rate_bytes(limit@) is None,
            },
    {
        let limit = match &args.rate_limit {
            Some(limit) => parse_rate_limit(limit.as_str()),
            None => None,
        };
        Transfer { limit, background: args.background, downloaded: 0 }
    }

    /// How many bytes the transfer is ahead of the `expected` number that its limit allows so
    /// far: before the next bytes are written, it pauses until these are allowed too.
    pub fn bytes_ahead(&self, expected: u64) -> (r: Option<u64>)
        ensures
            match r {
                Some(ahead) => self.limit is Some && expected + ahead == self.downloaded && ahead
                    > 0,
                None => self.limit is None || self.downloaded <= expected,
            },
    {
        if self.limit.is_some() && self.downloaded > expected {
            Some(self.downloaded - expected)
        } else {
            None
        }
    }

    /// Notes that bytes were written, and says whether to report the progress to the log.
    pub fn bytes_written(&mut self, count: u64) -> (report: bool)
        requires
            old(self).downloaded + count <= u64::MAX,
        ensures
            *final(self) == (Transfer {
                downloaded: (old(self).downloaded + count) as u64,
                ..*old(self)
            }),
            report == (old(self).background && (old(self).downloaded + count) % (
            REPORT_INTERVAL as int) == 0),
    {
        self.downloaded = self.downloaded + count;
        self.background && self.downloaded % REPORT_INTERVAL == 0
    }
}

} // verus!
