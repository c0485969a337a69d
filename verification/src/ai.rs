//! Answer synthesis over retrieved evidence: grounding-context and prompt
//! construction, and extraction of the answer from a chat-completion
//! response.
//!
//! Relevance scores are fixed-point values in ten-thousandths and are
//! rendered with four decimal places.

use vstd::prelude::*;
use vstd::string::StringExecFns;
use crate::strings::push_char;
use crate::errors::SynthesisError;
use crate::qdrant_client::SearchResult;

verus! {

/// One role-tagged message of a chat-completion request.
#[derive(Debug)]
pub struct Message {
    pub role: String,
    pub content: String,
}

/// A chat-completion response: the completion choices and token accounting.
#[derive(Debug)]
pub struct ChatCompletionResponse {
    pub choices: Vec<Choice>,
    pub usage: Option<Usage>,
}

/// One completion choice with its finish condition.
#[derive(Debug)]
pub struct Choice {
    pub message: ResponseMessage,
    pub finish_reason: String,
}

/// The message of a completion choice; `content` is absent when the model
/// produced no normal completion.
#[derive(Debug)]
pub struct ResponseMessage {
    pub role: String,
    pub content: Option<String>,
}

/// Token usage accounting of one request.
#[derive(Debug)]
pub struct Usage {
    pub prompt_tokens: i32,
    pub completion_tokens: i32,
    pub total_tokens: i32,
}

/// The decimal digit character for a value below ten.
pub open spec fn dec_digit(n: int) -> char {
    if n == 0 {
        '0'
    } else if n == 1 {
        '1'
    } else if n == 2 {
        '2'
    } else if n == 3 {
        '3'
    } else if n == 4 {
        '4'
    } else if n == 5 {
        '5'
    } else if n == 6 {
        '6'
    } else if n == 7 {
        '7'
    } else if n == 8 {
        '8'
    } else {
        '9'
    }
}

/// The decimal rendering of a non-negative integer.
pub open spec fn dec_str(n: int) -> Seq<char>
    decreases n,
{
    if n < 10 {
        seq![dec_digit(n)]
    } else {
        dec_str(n / 10).push(dec_digit(n % 10))
    }
}

/// The rendering of a fixed-point score in ten-thousandths, with a sign,
/// the integer part, and four decimal places.
pub open spec fn score_str(s: int) -> Seq<char> {
    if s < 0 {
        seq!['-'] + magnitude_str(-s)
    } else {
        magnitude_str(s)
    }
}

/// The rendering of a non-negative fixed-point value in ten-thousandths.
pub open spec fn magnitude_str(m: int) -> Seq<char> {
    dec_str(m / 10000) + seq![
        '.',
        dec_digit((m / 1000) % 10),
        dec_digit((m / 100) % 10),
        dec_digit((m / 10) % 10),
        dec_digit(m % 10),
    ]
}

/// Executable twin of `dec_digit`.
fn dec_digit_char(n: u64) -> (c: char)
    requires
        n < 10,
    ensures
        c == dec_digit(n as int),
{
    if n == 0 {
        '0'
    } else if n == 1 {
        '1'
    } else if n == 2 {
        '2'
    } else if n == 3 {
        '3'
    } else if n == 4 {
        '4'
    } else if n == 5 {
        '5'
    } else if n == 6 {
        '6'
    } else if n == 7 {
        '7'
    } else if n == 8 {
        '8'
    } else {
        '9'
    }
}

/// Renders a non-negative integer in decimal.
pub fn fmt_u64(n: u64) -> (r: String)
    ensures
        r@ == dec_str(n as int),
    decreases n,
{
    if n < 10 {
        let mut s = String::new();
        push_char(&mut s, dec_digit_char(n));
        s
    } else {
        let mut s = fmt_u64(n / 10);
        push_char(&mut s, dec_digit_char(n % 10));
        s
    }
}

/// Renders a fixed-point score in ten-thousandths with four decimal places.
pub fn fmt_score(s: i64) -> (r: String)
    ensures
        r@ == score_str(s as int),
{
    let mut out = String::new();
    let m: u64 = if s >= 0 {
        s as u64
    } else {
        push_char(&mut out, '-');
        (-(s + 1)) as u64 + 1
    };
    let digits = fmt_u64(m / 10000);
    out.append(digits.as_str());
    push_char(&mut out, '.');
    push_char(&mut out, dec_digit_char((m / 1000) % 10));
    push_char(&mut out, dec_digit_char((m / 100) % 10));
    push_char(&mut out, dec_digit_char((m / 10) % 10));
    push_char(&mut out, dec_digit_char(m % 10));
    out
}

/// The grounding-context line of one result: its source number, file
/// identity, similarity indicator and text.
pub open spec fn entry_str(i: int, name: Seq<char>, score: int, content: Seq<char>) -> Seq<char> {
    "[Source "@ + dec_str(i) + "] File: "@ + name + " (Score: "@ + score_str(score)
        + ")\nContent: "@ + content + "\n"@
}

/// The grounding context of the results, numbered from `i`, one entry per
/// result, separated by blank lines.
pub open spec fn context_str(rs: Seq<SearchResult>, i: int) -> Seq<char>
    decreases rs.len(),
{
    if rs.len() == 0 {
        Seq::empty()
    } else {
        let head = entry_str(
            i,
            rs[0].file_name@,
            rs[0].similarity_score as int,
            rs[0].chunk_content@,
        );
        if rs.len() == 1 {
            head
        } else {
            head + "\n"@ + context_str(rs.drop_first(), i + 1)
        }
    }
}

/// Builds the grounding context for the results: each result rendered with
/// its source number (starting at 1), file identity, similarity indicator
/// and text.
pub fn build_context(results: &Vec<SearchResult>) -> (r: String)
    ensures
        r@ == context_str(results@, 1),
{
    let ghost rv = results@;
    let mut out = String::new();
    let mut j: usize = 0;
    proof {
        assert(rv.skip(0) =~= rv);
        assert(Seq::<char>::empty() + context_str(rv, 1) =~= context_str(rv, 1));
    }
    while j < results.len()
        invariant
            rv == results@,
            j <= rv.len(),
            out@ + context_str(rv.skip(j as int), j as int + 1) == context_str(rv, 1),
        decreases rv.len() - j,
    {
        let ghost pre = out@;
        let ghost suffix = rv.skip(j as int);
        proof {
            assert(suffix[0] == rv[j as int]);
            assert(suffix.drop_first() =~= rv.skip(j as int + 1));
        }
        let item = &results[j];
        out.append("[Source ");
        let num = fmt_u64((j + 1) as u64);
        out.append(num.as_str());
        out.append("] File: ");
        out.append(item.file_name.as_str());
        out.append(" (Score: ");
        let sc = fmt_score(item.similarity_score);
        out.append(sc.as_str());
        out.append(")\nContent: ");
        out.append(item.chunk_content.as_str());
        out.append("\n");
        proof {
            let head = entry_str(
                j + 1,
                rv[j as int].file_name@,
                rv[j as int].similarity_score as int,
                rv[j as int].chunk_content@,
            );
            assert(out@ =~= pre + head);
        }
        if j + 1 < results.len() {
            out.append("\n");
        }
        proof {
            let head = entry_str(
                j + 1,
                rv[j as int].file_name@,
                rv[j as int].similarity_score as int,
                rv[j as int].chunk_content@,
            );
            if suffix.len() == 1 {
                assert(context_str(suffix, j as int + 1) == head);
                assert(rv.skip(j as int + 1) =~= Seq::<SearchResult>::empty());
                assert(context_str(rv.skip(j as int + 1), j as int + 2) == Seq::<char>::empty());
                assert(out@ + context_str(rv.skip(j as int + 1), j as int + 2) =~= pre + context_str(
                    suffix,
                    j as int + 1,
                ));
            } else {
                assert(context_str(suffix, j as int + 1) == head + "\n"@ + context_str(
                    suffix.drop_first(),
                    j as int + 2,
                ));
                assert(out@ =~= pre + head + "\n"@);
                assert(out@ + context_str(rv.skip(j as int + 1), j as int + 2) =~= pre + context_str(
                    suffix,
                    j as int + 1,
                ));
            }
        }
        j = j + 1;
    }
    proof {
        assert(rv.skip(rv.len() as int) =~= Seq::<SearchResult>::empty());
        assert(context_str(rv.skip(rv.len() as int), rv.len() as int + 1) == Seq::<char>::empty());
        assert(out@ =~= out@ + Seq::<char>::empty());
    }
    out
}

/// The instruction used when the caller supplies no system message.
pub open spec fn default_system_str() -> Seq<char> {
    "You are a helpful assistant that analyzes search results from a document database and provides comprehensive answers based on the information found."@
}

/// The user-side prompt: the query and the grounding context inside a
/// structured instruction that asks for an answer derived only from the
/// supplied evidence, flagging insufficient evidence.
pub open spec fn user_content_str(query: Seq<char>, rs: Seq<SearchResult>) -> Seq<char> {
    "Based on the following search results from a document database, please provide a comprehensive answer to the user's query.\n\nUser Query: "@
        + query + "\n\nSearch Results:\n"@ + context_str(rs, 1)
        + "\n\nPlease provide a detailed answer based on the information found in the search results. If the search results don't contain enough information to fully answer the query, please indicate what additional information might be needed."@
}

/// Builds the two-message request for answer synthesis: the system
/// instruction (the caller's, or the default) and the user prompt holding
/// the query and the grounding context. An empty result list still builds a
/// request: the model is expected to state that it lacks information.
pub fn build_messages(query: &str, results: &Vec<SearchResult>, system_message: Option<&str>) -> (r:
    Vec<Message>)
    ensures
        r@.len() == 2,
        r@[0].role@ == "system"@,
        r@[0].content@ == match system_message {
            Option::Some(s) => s@,
            Option::None => default_system_str(),
        },
        r@[1].role@ == "user"@,
        r@[1].content@ == user_content_str(query@, results@),
{
    let system_content: String = match system_message {
        Option::Some(s) => s.to_owned(),
        Option::None => String::from_str(
            "You are a helpful assistant that analyzes search results from a document database and provides comprehensive answers based on the information found.",
        ),
    };
    let mut user_content = String::from_str(
        "Based on the following search results from a document database, please provide a comprehensive answer to the user's query.\n\nUser Query: ",
    );
    user_content.append(query);
    user_content.append("\n\nSearch Results:\n");
    let context = build_context(results);
    user_content.append(context.as_str());
    user_content.append(
        "\n\nPlease provide a detailed answer based on the information found in the search results. If the search results don't contain enough information to fully answer the query, please indicate what additional information might be needed.",
    );
    let mut messages: Vec<Message> = Vec::new();
    messages.push(Message { role: String::from_str("system"), content: system_content });
    messages.push(Message { role: String::from_str("user"), content: user_content });
    messages
}

/// Extracts the answer from a chat-completion response. The answer is the
/// content of the top completion choice. A response with no choices is an
/// error; a top choice without content is the distinct truncation error
/// carrying the model's finish condition, never an empty answer.
pub fn extract_answer(resp: &ChatCompletionResponse) -> (r: Result<String, SynthesisError>)
    ensures
        resp.choices@.len() == 0 <==> r == Result::<String, SynthesisError>::Err(
            SynthesisError::NoChoices,
        ),
        resp.choices@.len() > 0 ==> match resp.choices@[0].message.content {
            Option::Some(c) => r matches Ok(ans) && ans@ == c@,
            Option::None => r matches Err(SynthesisError::Truncated { finish_reason })
                && finish_reason@ == resp.choices@[0].finish_reason@,
        },
{
    if resp.choices.len() == 0 {
        return Err(SynthesisError::NoChoices);
    }
    match &resp.choices[0].message.content {
        Option::Some(c) => Ok(c.clone()),
        Option::None => Err(
            SynthesisError::Truncated { finish_reason: resp.choices[0].finish_reason.clone() },
        ),
    }
}

} // verus!
