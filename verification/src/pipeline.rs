//! Planning the ingest pipeline: checking its configuration and building
//! the matrix of files to download, one per year and subject.

use vstd::prelude::*;
use crate::downloader::{DownloadTarget, TargetView};
use crate::text::{
    append_chars, ascii_lower, chars_of, collapse_us, dec, decimal, is_ascii_lower_alnum,
    is_ascii_text, is_slug_shaped, is_ws, join_path, join_path_chars, lemma_collapse_identity,
    lemma_collapse_keeps_class, lemma_collapse_no_double, lemma_strip_identity, lemma_strip_shape,
    lemma_trim_no_ws, no_double_us, replace_all, replace_chars, starts_with, str_views, string_of,
    strip_underscores, strip_us, to_lowercase, trim, trim_chars, unicode_lowercase,
};

verus! {

/// What the pipeline is asked to do.
#[derive(Debug, Clone)]
pub struct PipelineConfig {
    pub years: Vec<u32>,
    pub subjects: Vec<String>,
    pub output_path: String,
    pub raw_download_dir: String,
    pub source_url_template: Option<String>,
    pub force: bool,
    pub dry_run: bool,
}

/// What a run of the pipeline did.
#[derive(Debug, Clone)]
pub struct PipelineSummary {
    pub downloaded_files: usize,
    pub ocr_outputs: usize,
    pub parsed_questions: usize,
    pub failed_targets: usize,
}

pub open spec fn msg_no_years() -> Seq<char> {
    "対象年度が指定されていません。"@
}

pub open spec fn msg_no_subjects() -> Seq<char> {
    "対象科目が指定されていません。"@
}

pub open spec fn msg_no_template() -> Seq<char> {
    "source_url_template が未設定です（例: https://example.com/{year}/{subject}.pdf）。"@
}

pub open spec fn msg_template_missing() -> Seq<char> {
    "source_url_template が未設定です。"@
}

/// The error of the first check that a configuration fails, in the order
/// years, subjects, URL template; `None` when it passes them all.
pub open spec fn config_error(
    years: Seq<u32>,
    subjects: Seq<Seq<char>>,
    template: Option<Seq<char>>,
) -> Option<Seq<char>> {
    if years.len() == 0 {
        Some(msg_no_years())
    } else if subjects.len() == 0 {
        Some(msg_no_subjects())
    } else if template is None {
        Some(msg_no_template())
    } else {
        None
    }
}

pub open spec fn opt_view(o: Option<String>) -> Option<Seq<char>> {
    match o {
        Some(s) => Some(s@),
        None => None,
    }
}

/// The error that `config` fails with, if any.
pub open spec fn config_check(config: PipelineConfig) -> Option<Seq<char>> {
    config_error(config.years@, str_views(config.subjects@), opt_view(config.source_url_template))
}

/// Checks that the configuration names years, subjects and a URL template.
pub fn validate_config(config: &PipelineConfig) -> (r: Result<(), String>)
    ensures
        match r {
            Ok(()) => config_check(*config) is None,
            Err(m) => config_check(*config) == Some(m@),
        },
{
    if config.years.len() == 0 {
        return Err(String::from_str("対象年度が指定されていません。"));
    }
    if config.subjects.len() == 0 {
        return Err(String::from_str("対象科目が指定されていません。"));
    }
    if config.source_url_template.is_none() {
        return Err(
            String::from_str(
                "source_url_template が未設定です（例: https://example.com/{year}/{subject}.pdf）。",
            ),
        );
    }
    Ok(())
}

// ---------------------------------------------------------------------
// File slugs
// ---------------------------------------------------------------------

pub open spec fn unknown_slug() -> Seq<char> {
    seq!['u', 'n', 'k', 'n', 'o', 'w', 'n']
}

/// A character of a file slug: ASCII lower-case letters and digits stay,
/// anything else becomes an underscore.
pub open spec fn file_slug_char(c: char) -> char {
    if is_ascii_lower_alnum(c) {
        c
    } else {
        '_'
    }
}

/// The file slug of an already lower-cased subject: its ASCII letters and
/// digits, with each run of other characters replaced by one underscore and
/// no underscore at either end; `unknown` when nothing is left.
pub open spec fn slug_of_lowered(lowered: Seq<char>) -> Seq<char> {
    let c = strip_us(collapse_us(lowered.map_values(|c: char| file_slug_char(c))));
    if c.len() == 0 {
        unknown_slug()
    } else {
        c
    }
}

/// The file slug of a subject: that of its trimmed lower case.
pub open spec fn file_slug(subject: Seq<char>) -> Seq<char> {
    slug_of_lowered(unicode_lowercase(trim(subject)))
}

/// The file slug of a subject that is already trimmed and lower-cased.
pub fn slug_from_lowercase(lowered: &str) -> (r: String)
    ensures
        r@ == slug_of_lowered(lowered@),
{
    let chars = chars_of(lowered);
    let ghost mapped = chars@.map_values(|c: char| file_slug_char(c));
    let mut out: Vec<char> = Vec::new();
    let mut i: usize = 0;
    assert(mapped.take(0) == Seq::<char>::empty());
    while i < chars.len()
        invariant
            i <= chars.len(),
            mapped == chars@.map_values(|c: char| file_slug_char(c)),
            out@ == collapse_us(mapped.take(i as int)),
        decreases chars.len() - i,
    {
        let c = chars[i];
        assert(mapped.take(i + 1).drop_last() == mapped.take(i as int));
        assert(mapped.take(i + 1).last() == file_slug_char(c));
        if ('a' <= c && c <= 'z') || ('0' <= c && c <= '9') {
            out.push(c);
        } else if out.len() == 0 || out[out.len() - 1] != '_' {
            out.push('_');
        }
        i = i + 1;
    }
    assert(mapped.take(chars.len() as int) == mapped);
    let compact = strip_underscores(&out);
    if compact.len() == 0 {
        proof {
            reveal_strlit("unknown");
        }
        String::from_str("unknown")
    } else {
        string_of(&compact)
    }
}

/// The file slug of `subject`. For ASCII text the lower case is the ASCII
/// lower case; a slug is its own slug.
pub fn slugify(subject: &str) -> (r: String)
    ensures
        r@ == file_slug(subject@),
        is_ascii_text(trim(subject@)) ==> r@ == slug_of_lowered(
            trim(subject@).map_values(|c: char| ascii_lower(c)),
        ),
        is_file_slug(r@),
        is_file_slug(subject@) ==> r@ == subject@,
{
    proof {
        lemma_file_slug_shape(subject@);
    }
    let chars = chars_of(subject);
    let trimmed = string_of(&trim_chars(&chars));
    let lowered = to_lowercase(trimmed.as_str());
    proof {
        if is_file_slug(subject@) {
            let s = subject@;
            assert forall|i: int| 0 <= i < s.len() implies !is_ws(#[trigger] s[i]) by {
                assert(is_ascii_lower_alnum(s[i]) || s[i] == '_');
            }
            lemma_trim_no_ws(s);
            assert forall|i: int| 0 <= i < s.len() implies (#[trigger] s[i] as u32) < 128 by {
                assert(is_ascii_lower_alnum(s[i]) || s[i] == '_');
            }
            assert(lowered@ =~= s);
            assert(s.map_values(|c: char| file_slug_char(c)) =~= s);
            lemma_collapse_identity(s);
            lemma_strip_identity(s);
        }
    }
    if lowered.as_str().is_empty() {
        proof {
            reveal_strlit("unknown");
            let m = lowered@.map_values(|c: char| file_slug_char(c));
            assert(m =~= Seq::<char>::empty());
            assert(collapse_us(m) =~= Seq::<char>::empty());
            assert(strip_us(Seq::<char>::empty()) =~= Seq::<char>::empty());
        }
        return String::from_str("unknown");
    }
    slug_from_lowercase(lowered.as_str())
}


// ---------------------------------------------------------------------
// Download targets
// ---------------------------------------------------------------------

pub open spec fn year_pattern() -> Seq<char> {
    seq!['{', 'y', 'e', 'a', 'r', '}']
}

pub open spec fn subject_pattern() -> Seq<char> {
    seq!['{', 's', 'u', 'b', 'j', 'e', 'c', 't', '}']
}

/// The target of one year and subject: its URL is the template with
/// `{year}` replaced by the year and then `{subject}` by the subject's
/// file slug; its file is `<year>_<slug>.pdf` in the download directory.
pub open spec fn target_for(dir: Seq<char>, template: Seq<char>, year: u32, subject: Seq<char>) -> TargetView {
    let slug = file_slug(subject);
    TargetView {
        year,
        subject,
        url: replace_all(replace_all(template, year_pattern(), dec(year as nat)), subject_pattern(), slug),
        output_path: join_path(dir, dec(year as nat) + seq!['_'] + slug + seq!['.', 'p', 'd', 'f']),
    }
}

/// The targets of every year and subject: the years in order, and for each
/// year the subjects in order.
pub open spec fn targets_for(
    dir: Seq<char>,
    template: Seq<char>,
    years: Seq<u32>,
    subjects: Seq<Seq<char>>,
) -> Seq<TargetView>
    decreases years.len(),
{
    if years.len() == 0 {
        seq![]
    } else {
        targets_for(dir, template, years.drop_last(), subjects) + subjects.map_values(
            |s: Seq<char>| target_for(dir, template, years.last(), s),
        )
    }
}

pub open spec fn target_views(v: Seq<DownloadTarget>) -> Seq<TargetView> {
    v.map_values(|t: DownloadTarget| t@)
}

/// The targets of `config`: one per year and subject.
pub fn build_download_targets(config: &PipelineConfig) -> (r: Result<Vec<DownloadTarget>, String>)
    ensures
        match r {
            Ok(ts) => config.source_url_template matches Some(t) && target_views(ts@)
                == targets_for(
                config.raw_download_dir@,
                t@,
                config.years@,
                str_views(config.subjects@),
            ),
            Err(m) => config.source_url_template is None && m@ == msg_template_missing(),
        },
{
    let template_text = match &config.source_url_template {
        Some(t) => t,
        None => {
            return Err(String::from_str("source_url_template が未設定です。"));
        },
    };
    let template = chars_of(template_text.as_str());
    let dir = chars_of(config.raw_download_dir.as_str());
    let year_pat = vec!['{', 'y', 'e', 'a', 'r', '}'];
    let subject_pat = vec!['{', 's', 'u', 'b', 'j', 'e', 'c', 't', '}'];
    let pdf = vec!['.', 'p', 'd', 'f'];
    assert(year_pat@ == year_pattern());
    assert(subject_pat@ == subject_pattern());
    let ghost years = config.years@;
    let ghost subjects = str_views(config.subjects@);
    let mut targets: Vec<DownloadTarget> = Vec::new();
    let mut i: usize = 0;
    assert(years.take(0) == Seq::<u32>::empty());
    assert(target_views(targets@) =~= Seq::<TargetView>::empty());
    while i < config.years.len()
        invariant
            i <= config.years.len(),
            years == config.years@,
            subjects == str_views(config.subjects@),
            template@ == template_text@,
            dir@ == config.raw_download_dir@,
            year_pat@ == year_pattern(),
            subject_pat@ == subject_pattern(),
            pdf@ == seq!['.', 'p', 'd', 'f'],
            target_views(targets@) == targets_for(dir@, template@, years.take(i as int), subjects),
        decreases config.years.len() - i,
    {
        let year = config.years[i];
        let year_text = decimal(year as u64);
        let url_year = replace_chars(&template, &year_pat, &year_text);
        let ghost before = target_views(targets@);
        let ghost f = |s: Seq<char>| target_for(dir@, template@, year, s);
        let mut j: usize = 0;
        assert(subjects.take(0).map_values(f) =~= Seq::<TargetView>::empty());
        assert(before + Seq::<TargetView>::empty() == before);
        while j < config.subjects.len()
            invariant
                i < config.years.len(),
                j <= config.subjects.len(),
                years == config.years@,
                year == years[i as int],
                subjects == str_views(config.subjects@),
                year_text@ == dec(year as nat),
                url_year@ == replace_all(template@, year_pattern(), dec(year as nat)),
                subject_pat@ == subject_pattern(),
                pdf@ == seq!['.', 'p', 'd', 'f'],
                f == (|s: Seq<char>| target_for(dir@, template@, year, s)),
                target_views(targets@) == before + subjects.take(j as int).map_values(f),
            decreases config.subjects.len() - j,
        {
            let subject = &config.subjects[j];
            let slug_text = slugify(subject.as_str());
            let slug = chars_of(slug_text.as_str());
            let mut name = decimal(year as u64);
            name.push('_');
            append_chars(&mut name, &slug);
            append_chars(&mut name, &pdf);
            let path = join_path_chars(&dir, &name);
            let url = replace_chars(&url_year, &subject_pat, &slug);
            let t = DownloadTarget {
                year,
                subject: subject.clone(),
                url: string_of(&url),
                output_path: string_of(&path),
            };
            assert(subjects[j as int] == subject@);
            assert(name@ =~= dec(year as nat) + seq!['_'] + slug@ + seq!['.', 'p', 'd', 'f']);
            assert(t@.output_path == f(subject@).output_path);
            assert(t@.url == f(subject@).url);
            assert(t@ == f(subjects[j as int]));
            let ghost prev = targets@;
            targets.push(t);
            assert(subjects.take(j + 1).map_values(f) =~= subjects.take(j as int).map_values(
                f,
            ).push(t@));
            assert(target_views(targets@) =~= target_views(prev).push(t@));
            j = j + 1;
        }
        assert(subjects.take(config.subjects.len() as int) == subjects);
        assert(years.take(i + 1).drop_last() == years.take(i as int));
        assert(years.take(i + 1).last() == year);
        assert(subjects.map_values(f) =~= subjects.map_values(
            |s: Seq<char>| target_for(dir@, template@, years.take(i + 1).last(), s),
        ));
        i = i + 1;
    }
    assert(years.take(config.years.len() as int) == years);
    Ok(targets)
}


// ---------------------------------------------------------------------
// Ingest runs
// ---------------------------------------------------------------------

/// The next step of an ingest run once its configuration is checked.
#[derive(Debug)]
pub enum IngestStep {
    /// A dry run ends here: nothing is downloaded; `target_count` targets
    /// would have been.
    DryRun { target_count: usize, summary: PipelineSummary },
    /// These targets are to be downloaded; `force` fetches files that
    /// exist already.
    Download { targets: Vec<DownloadTarget>, force: bool },
}

/// A summary in which nothing was done but `downloaded` files fetched.
pub open spec fn summary_of(s: PipelineSummary, downloaded: nat) -> bool {
    s.downloaded_files == downloaded && s.ocr_outputs == 0 && s.parsed_questions == 0
        && s.failed_targets == 0
}

/// The summary of a run that downloaded `downloaded` files.
pub fn finish_ingest(downloaded: usize) -> (r: PipelineSummary)
    ensures
        summary_of(r, downloaded as nat),
{
    PipelineSummary {
        downloaded_files: downloaded,
        ocr_outputs: 0,
        parsed_questions: 0,
        failed_targets: 0,
    }
}

/// Checks the configuration and builds its targets: a dry run stops with
/// an empty summary, any other run goes on to download the targets.
pub fn plan_ingest(config: &PipelineConfig) -> (r: Result<IngestStep, String>)
    ensures
        match r {
            Err(m) => config_check(*config) == Some(m@),
            Ok(step) => {
                &&& config_check(*config) is None
                &&& config.source_url_template matches Some(t)
                &&& match step {
                    IngestStep::DryRun { target_count, summary } => {
                        &&& config.dry_run
                        &&& target_count == targets_for(
                            config.raw_download_dir@,
                            t@,
                            config.years@,
                            str_views(config.subjects@),
                        ).len()
                        &&& summary_of(summary, 0)
                    },
                    IngestStep::Download { targets, force } => {
                        &&& !config.dry_run
                        &&& force == config.force
                        &&& target_views(targets@) == targets_for(
                            config.raw_download_dir@,
                            t@,
                            config.years@,
                            str_views(config.subjects@),
                        )
                    },
                }
            },
        },
{
    validate_config(config)?;
    let targets = build_download_targets(config)?;
    if config.dry_run {
        Ok(IngestStep::DryRun { target_count: targets.len(), summary: finish_ingest(0) })
    } else {
        Ok(IngestStep::Download { targets, force: config.force })
    }
}

/// The message of a failed download of `target_count` targets.
pub fn download_failure_message(target_count: usize, error: &str) -> (r: String)
    ensures
        r@ == "ダウンロード処理に失敗しました。対象件数: "@ + dec(target_count as nat) + ", エラー: "@
            + error@,
{
    let mut m = String::from_str("ダウンロード処理に失敗しました。対象件数: ");
    let count = string_of(&decimal(target_count as u64));
    m.append(count.as_str());
    m.append(", エラー: ");
    m.append(error);
    m
}


// ---------------------------------------------------------------------
// Laws
// ---------------------------------------------------------------------

/// There is one target for each year and subject.
pub proof fn lemma_target_count(
    dir: Seq<char>,
    template: Seq<char>,
    years: Seq<u32>,
    subjects: Seq<Seq<char>>,
)
    ensures
        targets_for(dir, template, years, subjects).len() == years.len() * subjects.len(),
    decreases years.len(),
{
    if years.len() > 0 {
        lemma_target_count(dir, template, years.drop_last(), subjects);
        let ny = years.len() as int;
        let ns = subjects.len() as int;
        assert((ny - 1) * ns + ns == ny * ns) by (nonlinear_arith);
    }
}

/// The target of the `i`th year and the `j`th subject stands at
/// `i * subjects.len() + j`.
pub proof fn lemma_target_matrix(
    dir: Seq<char>,
    template: Seq<char>,
    years: Seq<u32>,
    subjects: Seq<Seq<char>>,
    i: int,
    j: int,
)
    requires
        0 <= i < years.len(),
        0 <= j < subjects.len(),
    ensures
        targets_for(dir, template, years, subjects)[i * subjects.len() + j] == target_for(
            dir,
            template,
            years[i],
            subjects[j],
        ),
    decreases years.len(),
{
    let ny = years.len() as int;
    let ns = subjects.len() as int;
    let prev = targets_for(dir, template, years.drop_last(), subjects);
    lemma_target_count(dir, template, years.drop_last(), subjects);
    assert(prev.len() == (ny - 1) * ns);
    if i < ny - 1 {
        assert(i * ns + j < (ny - 1) * ns) by (nonlinear_arith)
            requires
                0 <= i < ny - 1,
                0 <= j < ns,
        ;
        assert(0 <= i * ns) by (nonlinear_arith)
            requires
                0 <= i,
                0 <= ns,
        ;
        lemma_target_matrix(dir, template, years.drop_last(), subjects, i, j);
        assert(years.drop_last()[i] == years[i]);
    } else {
        assert(i * ns + j - (ny - 1) * ns == j);
    }
}

/// A template that begins with text free of `{` keeps that text in front
/// of every URL made from it.
pub proof fn lemma_replace_keeps_prefix(p: Seq<char>, rest: Seq<char>, pat: Seq<char>, rep: Seq<char>)
    requires
        pat.len() > 0,
        pat[0] == '{',
        forall|i: int| 0 <= i < p.len() ==> #[trigger] p[i] != '{',
    ensures
        replace_all(p + rest, pat, rep) == p + replace_all(rest, pat, rep),
    decreases p.len(),
{
    if p.len() > 0 {
        let s = p + rest;
        assert(s[0] == p[0]);
        assert(!starts_with(s, pat)) by {
            if starts_with(s, pat) {
                assert(s.take(pat.len() as int)[0] == pat[0]);
            }
        }
        let t = p.drop_first();
        assert forall|i: int| 0 <= i < t.len() implies #[trigger] t[i] != '{' by {
            assert(t[i] == p[i + 1]);
        }
        lemma_replace_keeps_prefix(t, rest, pat, rep);
        assert(s.drop_first() == t + rest);
        assert(seq![p[0]] + (t + replace_all(rest, pat, rep)) == p + replace_all(rest, pat, rep));
    } else {
        assert(p + rest == rest);
        assert(p + replace_all(rest, pat, rep) == replace_all(rest, pat, rep));
    }
}

/// When the URL template begins with text free of `{` (such as
/// `https://example.com/`), every target's URL begins with that text.
pub proof fn lemma_target_urls_keep_template_prefix(
    dir: Seq<char>,
    template: Seq<char>,
    years: Seq<u32>,
    subjects: Seq<Seq<char>>,
    prefix: Seq<char>,
)
    requires
        starts_with(template, prefix),
        forall|i: int| 0 <= i < prefix.len() ==> #[trigger] prefix[i] != '{',
    ensures
        forall|k: int|
            0 <= k < targets_for(dir, template, years, subjects).len() ==> starts_with(
                #[trigger] targets_for(dir, template, years, subjects)[k].url,
                prefix,
            ),
    decreases years.len(),
{
    let rest = template.skip(prefix.len() as int);
    assert(template == prefix + rest);
    if years.len() > 0 {
        lemma_target_urls_keep_template_prefix(dir, template, years.drop_last(), subjects, prefix);
        let year = years.last();
        let y = dec(year as nat);
        lemma_replace_keeps_prefix(prefix, rest, year_pattern(), y);
        let r1 = replace_all(rest, year_pattern(), y);
        assert(replace_all(template, year_pattern(), y) == prefix + r1);
        let prev = targets_for(dir, template, years.drop_last(), subjects);
        let all = targets_for(dir, template, years, subjects);
        assert forall|k: int| 0 <= k < all.len() implies starts_with(#[trigger] all[k].url, prefix) by {
            if k < prev.len() {
                assert(all[k] == prev[k]);
            } else {
                let j = k - prev.len();
                let slug = file_slug(subjects[j]);
                lemma_replace_keeps_prefix(prefix, r1, subject_pattern(), slug);
                assert(all[k] == target_for(dir, template, year, subjects[j]));
                let u = prefix + replace_all(r1, subject_pattern(), slug);
                assert(all[k].url == u);
                assert(u.take(prefix.len() as int) == prefix);
            }
        }
    }
}

/// A file slug: not empty, made of ASCII lower-case letters, digits and
/// underscores, with no doubled underscore and none at either end.
pub open spec fn is_file_slug(s: Seq<char>) -> bool {
    &&& s.len() > 0
    &&& forall|i: int| 0 <= i < s.len() ==> is_ascii_lower_alnum(#[trigger] s[i]) || s[i] == '_'
    &&& is_slug_shaped(s)
}

proof fn lemma_slug_of_lowered_shape(lowered: Seq<char>)
    ensures
        is_file_slug(slug_of_lowered(lowered)),
{
    let m = lowered.map_values(|c: char| file_slug_char(c));
    assert forall|i: int| 0 <= i < m.len() implies is_ascii_lower_alnum(#[trigger] m[i]) || m[i]
        == '_' by {}
    lemma_collapse_keeps_class(m, |c: char| is_ascii_lower_alnum(c) || c == '_');
    lemma_collapse_no_double(m);
    let c = collapse_us(m);
    lemma_strip_shape(c);
    let r = strip_us(c);
    let (a, b) = choose|a: int, b: int| 0 <= a <= b <= c.len() && r == c.subrange(a, b);
    assert forall|i: int| 0 <= i < r.len() implies is_ascii_lower_alnum(#[trigger] r[i]) || r[i]
        == '_' by {
        assert(r[i] == c[a + i]);
    }
    let u = unknown_slug();
    assert(u.len() == 7);
    assert forall|i: int| 0 <= i < u.len() implies is_ascii_lower_alnum(#[trigger] u[i]) || u[i]
        == '_' by {}
    assert(no_double_us(u));
}

/// A file slug is never empty, and is made of ASCII lower-case letters,
/// digits and single underscores, none of them at either end.
pub proof fn lemma_file_slug_shape(subject: Seq<char>)
    ensures
        is_file_slug(file_slug(subject)),
{
    lemma_slug_of_lowered_shape(unicode_lowercase(trim(subject)));
}

} // verus!
