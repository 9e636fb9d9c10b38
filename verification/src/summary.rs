//! What a summary request asks for, and the steps that answer it.

use vstd::prelude::*;

use crate::ollama::{error_text, Error};
use crate::text::{
    char_is_whitespace, chars_of, has_non_white_space, is_white_space, parse_i64, parse_i64_text,
    parse_u32, parse_u32_text, parse_u64, parse_u64_text,
};

verus! {

/// A request for the summary of a video.
#[derive(Debug, PartialEq, Eq)]
pub struct SummarizeRequest {
    /// The address of the video.
    pub url: String,
    /// Not used; accepted for the page's sake.
    pub api_key: Option<String>,
    /// The Ollama model to summarize with.
    pub model: Option<String>,
    /// The instructions for the model.
    pub system_prompt: Option<String>,
    /// Answer with a fixed sample, fetching nothing.
    pub dry_run: bool,
    /// Answer with the transcript itself.
    pub transcript_only: bool,
}

/// The answer to a summary request.
#[derive(Debug, PartialEq, Eq)]
pub struct SummarizeResponse {
    pub summary: String,
    pub subtitles: String,
    pub video_name: String,
}

/// The model used when the request names none (or only white space).
pub open spec fn default_model() -> Seq<char> {
    "llama3:8b"@
}

/// The language of the transcripts that are fetched.
pub open spec fn transcript_language() -> Seq<char> {
    "en"@
}

/// The address of the Ollama server when none is configured.
pub open spec fn default_base_url() -> Seq<char> {
    "http://127.0.0.1:11434"@
}

/// The model that a request asks for: the one it names, unless that is
/// missing or only white space; then `default_model`.
pub open spec fn chosen_model(model: Option<String>) -> Seq<char> {
    match model {
        Some(m) => if has_non_white_space(m@) {
            m@
        } else {
            default_model()
        },
        None => default_model(),
    }
}

/// Whether `s` holds a character that is not white space.
pub fn is_not_blank(s: &str) -> (r: bool)
    ensures
        r == has_non_white_space(s@),
{
    let chars = chars_of(s);
    let mut i: usize = 0;
    while i < chars.len()
        invariant
            chars@ == s@,
            0 <= i <= chars@.len(),
            forall|k: int| 0 <= k < i ==> is_white_space(#[trigger] chars@[k]),
        decreases chars@.len() - i,
    {
        if !char_is_whitespace(chars[i]) {
            return true;
        }
        i = i + 1;
    }
    false
}

/// The model that a request asks for (see `chosen_model`).
pub fn resolve_model(model: Option<String>) -> (r: String)
    ensures
        r@ == chosen_model(model),
{
    match model {
        Some(m) => if is_not_blank(m.as_str()) {
            m
        } else {
            String::from_str("llama3:8b")
        },
        None => String::from_str("llama3:8b"),
    }
}

/// The instructions that a request gives the model: its own, or the
/// built-in ones.
pub fn resolve_system_prompt(system_prompt: Option<String>) -> (r: String)
    ensures
        system_prompt matches Some(p) ==> r == p,
        system_prompt is None ==> r@ == DEFAULT_PROMPT@,
{
    match system_prompt {
        Some(p) => p,
        None => String::from_str(DEFAULT_PROMPT),
    }
}

/// The address of the Ollama server: the configured one, or
/// `default_base_url`.
pub fn resolve_base_url(configured: Option<String>) -> (r: String)
    ensures
        configured matches Some(u) ==> r == u,
        configured is None ==> r@ == default_base_url(),
{
    match configured {
        Some(u) => u,
        None => String::from_str("http://127.0.0.1:11434"),
    }
}

/// A setting read from text as a `u32`: the value when the text is one,
/// `default` when the text is missing or no `u32`.
pub fn u32_setting(text: Option<&str>, default: u32) -> (r: u32)
    ensures
        r == (match text {
            Some(t) => match parse_u32(t@) {
                Some(v) => v,
                None => default,
            },
            None => default,
        }),
{
    match text {
        Some(t) => match parse_u32_text(t) {
            Some(v) => v,
            None => default,
        },
        None => default,
    }
}

/// A setting read from text as an `i64`: the value when the text is one,
/// `default` when the text is missing or no `i64`.
pub fn i64_setting(text: Option<&str>, default: i64) -> (r: i64)
    ensures
        r == (match text {
            Some(t) => match parse_i64(t@) {
                Some(v) => v,
                None => default,
            },
            None => default,
        }),
{
    match text {
        Some(t) => match parse_i64_text(t) {
            Some(v) => v,
            None => default,
        },
        None => default,
    }
}

/// A request timeout in seconds read from text: the value when the text is
/// a `u64` above zero; none (wait without limit) otherwise.
pub fn timeout_setting(text: Option<&str>) -> (r: Option<u64>)
    ensures
        r == (match text {
            Some(t) => match parse_u64(t@) {
                Some(v) => if v > 0 {
                    Some(v)
                } else {
                    None
                },
                None => None,
            },
            None => None,
        }),
{
    match text {
        Some(t) => match parse_u64_text(t) {
            Some(v) => if v > 0 {
                Some(v)
            } else {
                None
            },
            None => None,
        },
        None => None,
    }
}

/// The first step of answering a summary request.
#[derive(Debug, PartialEq, Eq)]
pub enum SummaryStart {
    /// Answer at once.
    Respond(SummarizeResponse),
    /// Fetch the transcript and the title of the video at `url`, in
    /// `language`.
    FetchTranscript { url: String, language: String },
}

/// How to start answering `request`: a dry run answers with `sample` as both
/// summary and subtitles of a video named `"Dry Run"`; any other request
/// needs the English transcript of its video.
pub fn begin_summary(request: &SummarizeRequest, sample: &str) -> (r: SummaryStart)
    ensures
        request.dry_run ==> (r matches SummaryStart::Respond(a) && a.summary@ == sample@
            && a.subtitles@ == sample@ && a.video_name@ == "Dry Run"@),
        !request.dry_run ==> (r matches SummaryStart::FetchTranscript { url, language } && url@
            == request.url@ && language@ == transcript_language()),
{
    if request.dry_run {
        SummaryStart::Respond(
            SummarizeResponse {
                summary: String::from_str(sample),
                subtitles: String::from_str(sample),
                video_name: String::from_str("Dry Run"),
            },
        )
    } else {
        SummaryStart::FetchTranscript {
            url: request.url.clone(),
            language: String::from_str("en"),
        }
    }
}

/// What the model is asked to do for a summary.
#[derive(Debug, PartialEq, Eq)]
pub struct SummaryJob {
    pub model: String,
    pub system_prompt: String,
    pub transcript: String,
    pub video_name: String,
}

/// The step after the transcript was fetched (or was not).
#[derive(Debug, PartialEq, Eq)]
pub enum TranscriptStep {
    /// Answer with this.
    Respond(SummarizeResponse),
    /// Give up with this message.
    Fail(String),
    /// Have the model summarize.
    Summarize(SummaryJob),
}

/// How to go on once the transcript fetch for `request` gave `outcome`:
/// the transcript and the video's title, or the text of what went wrong.
/// A failure is reported as a transcript error; a transcript-only request is
/// answered with the transcript as summary and subtitles; any other request
/// goes to the model it asks for, with its instructions.
pub fn after_transcript(request: SummarizeRequest, outcome: Result<(String, String), String>) -> (r:
    TranscriptStep)
    ensures
        match outcome {
            Err(e) => r matches TranscriptStep::Fail(m) && m@ == "Transcript error: "@ + e@,
            Ok((transcript, video_name)) => if request.transcript_only {
                r matches TranscriptStep::Respond(a) && a.summary == transcript && a.subtitles
                    == transcript && a.video_name == video_name
            } else {
                r matches TranscriptStep::Summarize(job) && job.model@ == chosen_model(
                    request.model,
                ) && (request.system_prompt matches Some(p) ==> job.system_prompt == p) && (
                request.system_prompt is None ==> job.system_prompt@ == DEFAULT_PROMPT@)
                    && job.transcript == transcript && job.video_name == video_name
            },
        },
{
    match outcome {
        Err(e) => {
            let mut m = String::from_str("Transcript error: ");
            m.append(e.as_str());
            TranscriptStep::Fail(m)
        },
        Ok((transcript, video_name)) => {
            if request.transcript_only {
                let subtitles = transcript.clone();
                TranscriptStep::Respond(
                    SummarizeResponse { summary: transcript, subtitles, video_name },
                )
            } else {
                TranscriptStep::Summarize(
                    SummaryJob {
                        model: resolve_model(request.model),
                        system_prompt: resolve_system_prompt(request.system_prompt),
                        transcript,
                        video_name,
                    },
                )
            }
        },
    }
}

/// The answer once the model gave `outcome` for `job`: its summary with the
/// job's transcript as subtitles, or the model's error reported as an Ollama
/// error.
pub fn finish_summary(job: SummaryJob, outcome: Result<String, Error>) -> (r: Result<
    SummarizeResponse,
    String,
>)
    ensures
        match outcome {
            Ok(summary) => r matches Ok(a) && a.summary == summary && a.subtitles == job.transcript
                && a.video_name == job.video_name,
            Err(e) => r matches Err(m) && m@ == "Ollama error: "@ + error_text(e),
        },
{
    match outcome {
        Ok(summary) => Ok(
            SummarizeResponse { summary, subtitles: job.transcript, video_name: job.video_name },
        ),
        Err(e) => {
            let mut m = String::from_str("Ollama error: ");
            let text = e.message();
            m.append(text.as_str());
            Err(m)
        },
    }
}

/// The text with which a failed summary is reported.
pub fn processing_error(message: &str) -> (r: String)
    ensures
        r@ == "Processing error: "@ + message@,
{
    let mut m = String::from_str("Processing error: ");
    m.append(message);
    m
}

/// The instructions given to the model when the request brings none.
pub const DEFAULT_PROMPT: &'static str = r#"You are an expert video summarizer. Given a raw YouTube transcript (and optionally the video title), produce a debate‑ready Markdown summary that captures the speaker’s core thesis, structure, and evidence without adding facts that aren’t in the transcript.

Tone and perspective:
- Use a neutral narrator voice: refer to the narrator as “the speaker” (e.g., “The speaker argues…”).
- Preserve the speaker’s stance and rhetoric, but do not editorialize or inject new claims.
- If something is not mentioned, say “Not mentioned” instead of guessing.

Output format (Markdown only):
1) Start with a punchy H2 title that captures the thesis.
   - Format: “## {Concise, compelling title reflecting the main claim}”
2) One short opening paragraph (2–3 sentences) that frames the overall argument.
3) 3–6 H3 sections with clear, descriptive headings that organize the content.
   - For each section:
     - 1–2 concise paragraphs.
     - Follow with bullet points using “* ”. Bold key terms and claims like **Bitcoin**, **employment**, **risk**, **status**, **leverage**, etc.
     - Where helpful, add a short numbered list (1.–3.) for steps/frameworks.
4) If the transcript includes critiques of alternatives or comparisons, include a separate section summarizing them (e.g., “### Critique of {X}”).
5) If practical steps are given, include a short “### Actionable Steps” section.
6) If risks, caveats, timelines, metrics, or quotes appear, preserve them verbatim (use inline quotes for short lines, blockquotes for longer).
7) End cleanly without a generic conclusion if it repeats content.

Style constraints:
- Use bold to highlight crucial terms and takeaways (not entire sentences).
- Keep factual fidelity: do not add numbers, timelines, or names that aren’t in the transcript.
- Prefer concrete details (figures, dates, specific names) when present.
- Remove ads/sponsors, filler, repeated phrases, and irrelevant tangents.
- Length target: ~300–700 words for typical videos; go longer only if the transcript is dense.

Safety/accuracy:
- If the transcript is incomplete or ambiguous, note “Not mentioned,” “Unclear,” or “Ambiguous” where appropriate.
- Do not invent references, links, or sources."#;

/// A model the request names is used as it is named, whenever the name
/// holds any character that is not white space.
pub proof fn law_named_model_is_used(m: String)
    requires
        exists|i: int| 0 <= i < m@.len() && !is_white_space(#[trigger] m@[i]),
    ensures
        chosen_model(Some(m)) == m@,
{
}

/// A request that names no model gets the default model, `llama3:8b`.
pub proof fn law_missing_model_replaced()
    ensures
        chosen_model(None) == "llama3:8b"@,
{
}

/// A name of white space alone is replaced by the default model.
pub proof fn law_blank_model_replaced(m: String)
    requires
        forall|i: int| 0 <= i < m@.len() ==> is_white_space(#[trigger] m@[i]),
    ensures
        chosen_model(Some(m)) == "llama3:8b"@,
{
}

} // verus!
