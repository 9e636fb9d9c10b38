use tldr_ollama::ollama::Error;
use tldr_ollama::summary::{
    after_transcript, begin_summary, finish_summary, i64_setting, is_not_blank, processing_error,
    resolve_base_url, resolve_model, resolve_system_prompt, timeout_setting, u32_setting,
    SummarizeRequest, SummarizeResponse, SummaryJob, SummaryStart, TranscriptStep,
    DEFAULT_PROMPT,
};

fn request(dry_run: bool, transcript_only: bool, model: Option<&str>) -> SummarizeRequest {
    SummarizeRequest {
        url: "https://youtu.be/x".to_string(),
        api_key: None,
        model: model.map(|m| m.to_string()),
        system_prompt: None,
        dry_run,
        transcript_only,
    }
}

#[test]
fn dry_run_answers_with_sample() {
    match begin_summary(&request(true, false, None), "# sample") {
        SummaryStart::Respond(r) => {
            assert_eq!(r.summary, "# sample");
            assert_eq!(r.subtitles, "# sample");
            assert_eq!(r.video_name, "Dry Run");
        }
        other => panic!("unexpected {:?}", other),
    }
}

#[test]
fn other_requests_fetch_transcript() {
    assert_eq!(
        begin_summary(&request(false, true, None), "s"),
        SummaryStart::FetchTranscript {
            url: "https://youtu.be/x".to_string(),
            language: "en".to_string()
        }
    );
}

#[test]
fn transcript_failure() {
    assert_eq!(
        after_transcript(request(false, false, None), Err("no captions".to_string())),
        TranscriptStep::Fail("Transcript error: no captions".to_string())
    );
}

#[test]
fn transcript_only_answers_with_transcript() {
    assert_eq!(
        after_transcript(request(false, true, None), Ok(("words".to_string(), "Title".to_string()))),
        TranscriptStep::Respond(SummarizeResponse {
            summary: "words".to_string(),
            subtitles: "words".to_string(),
            video_name: "Title".to_string()
        })
    );
}

#[test]
fn summary_job_defaults() {
    match after_transcript(request(false, false, Some("  ")), Ok(("w".to_string(), "T".to_string()))) {
        TranscriptStep::Summarize(job) => {
            assert_eq!(job.model, "llama3:8b");
            assert_eq!(job.system_prompt, DEFAULT_PROMPT);
            assert_eq!(job.transcript, "w");
            assert_eq!(job.video_name, "T");
        }
        other => panic!("unexpected {:?}", other),
    }
    let mut with_prompt = request(false, false, Some("llama3:8b"));
    with_prompt.system_prompt = Some("be brief".to_string());
    match after_transcript(with_prompt, Ok(("w".to_string(), "T".to_string()))) {
        TranscriptStep::Summarize(job) => {
            assert_eq!(job.model, "llama3:8b");
            assert_eq!(job.system_prompt, "be brief");
        }
        other => panic!("unexpected {:?}", other),
    }
}

#[test]
fn model_choice() {
    assert_eq!(resolve_model(None), "llama3:8b");
    assert_eq!(resolve_model(Some(String::new())), "llama3:8b");
    assert_eq!(resolve_model(Some("\t\u{a0}\n".to_string())), "llama3:8b");
    assert_eq!(resolve_model(Some(" qwen ".to_string())), " qwen ");
    assert!(!is_not_blank(" \r"));
    assert!(is_not_blank(" a"));
    assert_eq!(resolve_system_prompt(Some("p".to_string())), "p");
    assert!(resolve_system_prompt(None).starts_with("You are an expert video summarizer."));
    assert_eq!(resolve_base_url(None), "http://127.0.0.1:11434");
    assert_eq!(resolve_base_url(Some("http://h:1".to_string())), "http://h:1");
}

#[test]
fn finishing() {
    let job = SummaryJob {
        model: "m".to_string(),
        system_prompt: "p".to_string(),
        transcript: "t".to_string(),
        video_name: "v".to_string(),
    };
    assert_eq!(
        finish_summary(job, Ok("sum".to_string())),
        Ok(SummarizeResponse {
            summary: "sum".to_string(),
            subtitles: "t".to_string(),
            video_name: "v".to_string()
        })
    );
    let job = SummaryJob {
        model: "m".to_string(),
        system_prompt: "p".to_string(),
        transcript: "t".to_string(),
        video_name: "v".to_string(),
    };
    assert_eq!(
        finish_summary(job, Err(Error::NoTextInResponse)),
        Err("Ollama error: NoTextInResponse".to_string())
    );
    assert_eq!(processing_error("x"), "Processing error: x");
}

#[test]
fn settings() {
    assert_eq!(u32_setting(None, 2), 2);
    assert_eq!(u32_setting(Some("5"), 2), 5);
    assert_eq!(u32_setting(Some("five"), 2), 2);
    assert_eq!(i64_setting(Some("-3"), 1200), -3);
    assert_eq!(i64_setting(Some(""), 1200), 1200);
    assert_eq!(timeout_setting(None), None);
    assert_eq!(timeout_setting(Some("0")), None);
    assert_eq!(timeout_setting(Some("30")), Some(30));
    assert_eq!(timeout_setting(Some("-1")), None);
}
