//! Download targets and the decisions taken for each before it is fetched.

use vstd::prelude::*;
use crate::text::{
    chars_of, dec, decimal, lemma_trim_blank, string_of, trim, trim_chars, white_space_code,
};

verus! {

/// One file to download: the exam year and subject it belongs to, where
/// it is fetched from and where it is saved.
#[derive(Debug, Clone)]
pub struct DownloadTarget {
    pub year: u32,
    pub subject: String,
    pub url: String,
    pub output_path: String,
}

/// A download target as plain text values.
pub struct TargetView {
    pub year: u32,
    pub subject: Seq<char>,
    pub url: Seq<char>,
    pub output_path: Seq<char>,
}

impl View for DownloadTarget {
    type V = TargetView;

    open spec fn view(&self) -> TargetView {
        TargetView {
            year: self.year,
            subject: self.subject@,
            url: self.url@,
            output_path: self.output_path@,
        }
    }
}

/// What `reqwest::Url::parse` makes of `s`: `Ok` when it parses as an
/// absolute URL, else the text of the parser's error.
pub uninterp spec fn url_parse_result(s: Seq<char>) -> Result<(), Seq<char>>;

/// Whether `s` parses as an absolute URL.
pub open spec fn url_parses(s: Seq<char>) -> bool {
    url_parse_result(s) is Ok
}

/// `reqwest::Url::parse` (the `url` crate's parser), with the error turned
/// into its displayed text. The contract names the outcome as a function of
/// the text alone: whether it parses, and otherwise the error's message.
#[verifier::external_body]
fn parse_url(s: &str) -> (r: Result<(), String>)
    ensures
        match r {
            Ok(()) => url_parse_result(s@) == Ok::<(), Seq<char>>(()),
            Err(m) => url_parse_result(s@) == Err::<(), Seq<char>>(m@),
        },
{
    match reqwest::Url::parse(s) {
        Ok(_) => Ok(()),
        Err(e) => Err(e.to_string()),
    }
}

/// Why a download target is refused.
#[derive(Debug)]
pub enum TargetError {
    /// The subject is blank.
    EmptySubject { year: u32 },
    /// The output path is empty.
    EmptyOutputPath { year: u32 },
    /// The URL does not parse; `reason` is the parser's message.
    InvalidUrl { reason: String },
}

impl TargetError {
    /// The message of the error.
    pub fn message(&self) -> (r: String)
        ensures
            match self {
                TargetError::EmptySubject { year } => r@ == "subject is empty for year "@ + dec(
                    *year as nat,
                ),
                TargetError::EmptyOutputPath { year } => r@ == "output_path is empty for year "@
                    + dec(*year as nat),
                TargetError::InvalidUrl { reason } => r@ == reason@,
            },
    {
        match self {
            TargetError::EmptySubject { year } => {
                let mut m = String::from_str("subject is empty for year ");
                let y = string_of(&decimal(*year as u64));
                m.append(y.as_str());
                m
            },
            TargetError::EmptyOutputPath { year } => {
                let mut m = String::from_str("output_path is empty for year ");
                let y = string_of(&decimal(*year as u64));
                m.append(y.as_str());
                m
            },
            TargetError::InvalidUrl { reason } => reason.clone(),
        }
    }
}

/// A target is valid when its subject is not blank, its output path is
/// not empty and its URL parses.
pub open spec fn target_valid(t: TargetView) -> bool {
    trim(t.subject).len() > 0 && t.output_path.len() > 0 && url_parses(t.url)
}

/// `e` is the error of the first check that `t` fails, in the order
/// subject, output path, URL.
pub open spec fn target_error_fits(e: TargetError, t: TargetView) -> bool {
    match e {
        TargetError::EmptySubject { year } => trim(t.subject).len() == 0 && year == t.year,
        TargetError::EmptyOutputPath { year } => trim(t.subject).len() > 0 && t.output_path.len()
            == 0 && year == t.year,
        TargetError::InvalidUrl { reason } => trim(t.subject).len() > 0 && t.output_path.len()
            > 0 && url_parse_result(t.url) == Err::<(), Seq<char>>(reason@),
    }
}

/// Checks a target before it is downloaded.
pub fn validate_target(target: &DownloadTarget) -> (r: Result<(), TargetError>)
    ensures
        r is Ok <==> target_valid(target@),
        r matches Err(e) ==> target_error_fits(e, target@),
{
    let subject = chars_of(target.subject.as_str());
    if trim_chars(&subject).len() == 0 {
        return Err(TargetError::EmptySubject { year: target.year });
    }
    if target.output_path.as_str().is_empty() {
        return Err(TargetError::EmptyOutputPath { year: target.year });
    }
    match parse_url(target.url.as_str()) {
        Ok(()) => Ok(()),
        Err(reason) => Err(TargetError::InvalidUrl { reason }),
    }
}

/// What is done with a valid target.
#[derive(PartialEq, Eq, Structural, Debug, Clone, Copy)]
pub enum DownloadAction {
    /// The file is there and is kept as it is.
    KeepExisting,
    /// The file is fetched and written.
    Fetch,
}

/// The action for `target`, given whether its output file exists and
/// whether downloads are forced: an error for an invalid target, else the
/// existing file is kept unless downloads are forced.
pub fn plan_download(target: &DownloadTarget, exists: bool, force: bool) -> (r: Result<
    DownloadAction,
    TargetError,
>)
    ensures
        r is Ok <==> target_valid(target@),
        r matches Err(e) ==> target_error_fits(e, target@),
        r matches Ok(a) ==> a == (if exists && !force {
            DownloadAction::KeepExisting
        } else {
            DownloadAction::Fetch
        }),
{
    validate_target(target)?;
    if exists && !force {
        Ok(DownloadAction::KeepExisting)
    } else {
        Ok(DownloadAction::Fetch)
    }
}


/// A target is refused for its subject exactly when the subject holds only
/// `White_Space` characters (or nothing); otherwise it is valid exactly when
/// its output path is not empty and its URL parses.
pub proof fn lemma_target_subject_rule(t: TargetView)
    ensures
        target_valid(t) <==> ((exists|i: int|
            0 <= i < t.subject.len() && !white_space_code(#[trigger] t.subject[i] as u32))
            && t.output_path.len() > 0 && url_parses(t.url)),
        forall|y: u32|
            #[trigger] target_error_fits(TargetError::EmptySubject { year: y }, t) <==> ((forall|
                i: int,
            | 0 <= i < t.subject.len() ==> white_space_code(#[trigger] t.subject[i] as u32))
                && y == t.year),
{
    lemma_trim_blank(t.subject);
}

} // verus!
