use file_crawler::ai::{
    build_context, build_messages, extract_answer, fmt_score, fmt_u64, ChatCompletionResponse,
    Choice, ResponseMessage,
};
use file_crawler::embed::prepare_passages;
use file_crawler::errors::SynthesisError;
use file_crawler::qdrant_client::SearchResult;

fn result(name: &str, path: &str, score: i64, content: &str) -> SearchResult {
    SearchResult {
        file_path: path.to_string(),
        file_name: name.to_string(),
        chunk_content: content.to_string(),
        chunk_index: 0,
        similarity_score: score,
    }
}

#[test]
fn scores_render_with_four_decimal_places() {
    assert_eq!(fmt_score(12345), "1.2345");
    assert_eq!(fmt_score(10000), "1.0000");
    assert_eq!(fmt_score(5), "0.0005");
    assert_eq!(fmt_score(-5), "-0.0005");
    assert_eq!(fmt_score(0), "0.0000");
    assert_eq!(fmt_u64(0), "0");
    assert_eq!(fmt_u64(907), "907");
}

#[test]
fn context_renders_each_result_with_source_identity() {
    let rs = vec![result("f.pdf", "docs/f.pdf", 12345, "hello")];
    assert_eq!(
        build_context(&rs),
        "[Source 1] File: f.pdf (Score: 1.2345)\nContent: hello\n"
    );
}

#[test]
fn context_numbers_results_and_separates_entries() {
    let rs = vec![
        result("a.pdf", "a", 10000, "first"),
        result("b.doc", "b", 2500, "second"),
    ];
    assert_eq!(
        build_context(&rs),
        "[Source 1] File: a.pdf (Score: 1.0000)\nContent: first\n\n[Source 2] File: b.doc (Score: 0.2500)\nContent: second\n"
    );
}

#[test]
fn messages_carry_system_instruction_and_grounded_query() {
    let rs = vec![result("a.pdf", "a", 10000, "evidence")];
    let msgs = build_messages("what is it?", &rs, None);
    assert_eq!(msgs.len(), 2);
    assert_eq!(msgs[0].role, "system");
    assert!(msgs[0].content.contains("helpful assistant"));
    assert_eq!(msgs[1].role, "user");
    assert!(msgs[1].content.contains("User Query: what is it?"));
    assert!(msgs[1].content.contains("[Source 1] File: a.pdf"));
    assert!(msgs[1].content.contains("evidence"));

    let custom = build_messages("q", &rs, Some("custom instruction"));
    assert_eq!(custom[0].content, "custom instruction");
}

#[test]
fn empty_evidence_still_builds_a_request() {
    let msgs = build_messages("anything known?", &Vec::new(), None);
    assert_eq!(msgs.len(), 2);
    assert!(msgs[1].content.contains("User Query: anything known?"));
}

#[test]
fn answer_is_the_top_choice_content() {
    let resp = ChatCompletionResponse {
        choices: vec![Choice {
            message: ResponseMessage { role: "assistant".to_string(), content: Some("the answer".to_string()) },
            finish_reason: "stop".to_string(),
        }],
        usage: None,
    };
    assert!(matches!(extract_answer(&resp), Ok(ans) if ans == "the answer"));
}

#[test]
fn truncated_completion_is_a_distinct_error() {
    let resp = ChatCompletionResponse {
        choices: vec![Choice {
            message: ResponseMessage { role: "assistant".to_string(), content: None },
            finish_reason: "length".to_string(),
        }],
        usage: None,
    };
    let r = extract_answer(&resp);
    assert!(matches!(r, Err(SynthesisError::Truncated { finish_reason }) if finish_reason == "length"));
}

#[test]
fn response_without_choices_is_an_error() {
    let resp = ChatCompletionResponse { choices: Vec::new(), usage: None };
    assert!(matches!(extract_answer(&resp), Err(SynthesisError::NoChoices)));
}

#[test]
fn passages_are_tagged_for_the_asymmetric_models() {
    let tagged = prepare_passages(&vec!["one chunk".to_string(), "two".to_string()]);
    assert_eq!(tagged, vec!["passage: one chunk".to_string(), "passage: two".to_string()]);
}
