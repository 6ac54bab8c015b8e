//! The command line: its options, and what they ask for.

use vstd::prelude::*;
use crate::decimal::{parse_u64, read_u64};
use crate::text::{
    contains_char, first_char, non_empty_trimmed_pieces, texts, to_chars, trim, trimmed,
    trimmed_pieces,
};

verus! {

/// The options of a run.
#[derive(Clone, Debug)]
pub struct WgetArgs {
    /// URL to download
    pub url: Option<String>,
    /// Download file in background, output to wget-log
    pub background: bool,
    /// Save file with a different name
    pub output_file: Option<String>,
    /// Directory to save the downloaded file
    pub directory: Option<String>,
    /// Limit download speed (e.g., 200k, 2M)
    pub rate_limit: Option<String>,
    /// File containing URLs to download
    pub input_file: Option<String>,
    /// Mirror a website (download entire website)
    pub mirror: bool,
    /// List of file suffixes to reject when mirroring (e.g., jpg,gif)
    pub reject: Option<String>,
    /// List of directories to exclude when mirroring (e.g., /assets,/css)
    pub exclude: Option<String>,
    /// Convert links for offline viewing when mirroring
    pub convert_links: bool,
}

/// The characters of an optional string.
pub open spec fn optional_text(s: Option<String>) -> Option<Seq<char>> {
    match s {
        Some(s) => Some(s@),
        None => None,
    }
}

/// The characters whose lower case is `k`.
pub open spec fn is_kilo(c: char) -> bool {
    c == 'k' || c == 'K' || c == '\u{212a}'
}

/// The characters whose lower case is `m`.
pub open spec fn is_mega(c: char) -> bool {
    c == 'm' || c == 'M'
}

/// The number that a rate limit names, and the number of bytes that it counts in.
pub open spec fn rate_parts(s: Seq<char>) -> Option<(nat, nat)> {
    let t = trim(s);
    let (number, unit) = if t.len() > 0 && is_kilo(t.last()) {
        (parse_u64(t.drop_last()), 1024nat)
    } else if t.len() > 0 && is_mega(t.last()) {
        (parse_u64(t.drop_last()), 1048576nat)
    } else {
        (parse_u64(t), 1nat)
    };
    match number {
        Some(n) => Some((n, unit)),
        None => None,
    }
}

/// The bytes per second that a rate limit names; none, where it is no rate limit or more than a
/// 64-bit number holds.
pub open spec fn rate_bytes(s: Seq<char>) -> Option<nat> {
    match rate_parts(s) {
        Some((n, unit)) if n * unit <= u64::MAX => Some(n * unit),
        _ => None,
    }
}

/// Reads a rate limit's number and unit.
fn read_rate(rate_limit: &str) -> (r: Option<(u64, u64)>)
    ensures
        match r {
            Some((n, unit)) => rate_parts(rate_limit@) == Some((n as nat, unit as nat)) && (unit
                == 1 || unit == 1024 || unit == 1048576),
            None => rate_parts(rate_limit@) is None,
        },
{
    let t = trimmed(rate_limit);
    let chars = to_chars(t.as_str());
    let len = chars.len();
    assert(chars@.take(len as int) =~= chars@);
    let mut unit: u64 = 1;
    let mut to: usize = len;
    if len > 0 {
        let c = chars[len - 1];
        if c == 'k' || c == 'K' || c == '\u{212a}' {
            unit = 1024;
            to = len - 1;
        } else if c == 'm' || c == 'M' {
            unit = 1048576;
            to = len - 1;
        }
        assert(chars@.take(len - 1) =~= chars@.drop_last());
    }
    match read_u64(&chars, to) {
        Some(n) => Some((n, unit)),
        None => None,
    }
}

/// Parses a rate limit string (like "200k" or "2M") into bytes per second.
pub fn parse_rate_limit(rate_limit: &str) -> (r: Option<u64>)
    ensures
        match r {
            Some(bytes) => rate_bytes(rate_limit@) == Some(bytes as nat),
            None => rate_bytes(rate_limit@) is None,
        },
{
    match read_rate(rate_limit) {
        Some((n, unit)) => n.checked_mul(unit),
        None => None,
    }
}

/// Splits a comma-separated string into a vector of strings.
pub fn split_comma_separated(s: &str) -> (r: Vec<String>)
    ensures
        texts(r@) == trimmed_pieces(s@, ','),
{
    non_empty_trimmed_pieces(s, ',')
}

/// Whether a command-line word may be a URL: it is no option and assigns no value.
pub open spec fn may_be_url(word: Seq<char>) -> bool {
    !is_option(word) && !word.contains('=')
}

/// Whether a command-line word is an option.
pub open spec fn is_option(word: Seq<char>) -> bool {
    word.len() > 0 && word[0] == '-'
}

/// The URL at the end of the command line: the last word, where it may be one and the word
/// before it is no option that it could be the value of. The first word is the program's name.
pub open spec fn trailing_url_text(words: Seq<Seq<char>>) -> Option<Seq<char>> {
    if words.len() >= 2 && may_be_url(words.last()) && !is_option(words[words.len() - 2]) {
        Some(words.last())
    } else {
        None
    }
}

fn word_is_option(word: &str) -> (r: bool)
    ensures
        r == is_option(word@),
{
    match first_char(word) {
        Some(c) => c == '-',
        None => false,
    }
}

/// The URL at the end of the command line.
pub fn trailing_url(words: &Vec<String>) -> (r: Option<String>)
    ensures
        optional_text(r) == trailing_url_text(texts(words@)),
{
    let len = words.len();
    if len < 2 {
        return None;
    }
    let last = &words[len - 1];
    assert(texts(words@)[len - 1] == last@);
    if word_is_option(last.as_str()) || contains_char(last.as_str(), '=') {
        return None;
    }
    assert(texts(words@)[len - 2] == words@[len - 2]@);
    if word_is_option(words[len - 2].as_str()) {
        return None;
    }
    Some(last.clone())
}

/// Fills in a URL that the options left out with the one at the end of the command line.
pub fn complete_args(args: WgetArgs, words: &Vec<String>) -> (r: WgetArgs)
    ensures
        args.url is Some ==> r == args,
        args.url is None ==> optional_text(r.url) == trailing_url_text(texts(words@)),
        r == (WgetArgs { url: r.url, ..args }),
{
    let mut args = args;
    if args.url.is_none() {
        args.url = trailing_url(words);
    }
    args
}

/// What a run does.
pub enum Command {
    /// Mirror the website.
    Mirror,
    /// Download every URL that the file lists.
    Batch { list: String },
    /// Download one URL.
    Single { url: String },
    /// Nothing to do: no URL was given.
    MissingUrl,
}

/// What the options ask for: mirroring goes before a list of URLs, a list before one URL.
pub fn choose_command(args: &WgetArgs) -> (r: Command)
    ensures
        r is Mirror <==> args.mirror,
        r matches Command::Batch { list } ==> optional_text(args.input_file) == Some(list@),
        r is Batch <==> !args.mirror && args.input_file is Some,
        r matches Command::Single { url } ==> optional_text(args.url) == Some(url@),
        r is Single <==> !args.mirror && args.input_file is None && args.url is Some,
        r is MissingUrl <==> !args.mirror && args.input_file is None && args.url is None,
{
    if args.mirror {
        return Command::Mirror;
    }
    match &args.input_file {
        Some(list) => Command::Batch { list: list.clone() },
        None => match &args.url {
            Some(url) => Command::Single { url: url.clone() },
            None => Command::MissingUrl,
        },
    }
}

} // verus!
