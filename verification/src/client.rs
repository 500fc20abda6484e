use vstd::prelude::*;

use crate::json::{json_object_of, json_object_text};
use crate::text::{chars_of, string_of};

verus! {

/// The address messages to `agent` are posted to.
pub open spec fn message_url_text(agent: Seq<char>) -> Seq<char> {
    "https://www.easybits.cloud/api/v2/agents/"@ + agent + "/message"@
}

/// The address messages to `agent` are posted to.
pub fn message_url(agent: &str) -> (r: String)
    ensures
        r@ == message_url_text(agent@),
{
    let mut url = "https://www.easybits.cloud/api/v2/agents/".to_owned();
    url.append(agent);
    url.append("/message");
    url
}

/// The address names the agent verbatim: it is the service's agents path,
/// then the whole id, then `/message`; so the id can be read back from it,
/// and two agents never share an address.
pub proof fn lemma_message_url_holds_agent(agent: Seq<char>, other: Seq<char>)
    ensures
        message_url_text(agent).len() == 41 + agent.len() + 8,
        message_url_text(agent).take(41) == "https://www.easybits.cloud/api/v2/agents/"@,
        message_url_text(agent).subrange(41, 41 + agent.len() as int) == agent,
        message_url_text(agent).skip(41 + agent.len() as int) == "/message"@,
        message_url_text(agent) == message_url_text(other) ==> agent == other,
{
    reveal_strlit("https://www.easybits.cloud/api/v2/agents/");
    reveal_strlit("/message");
    let base = "https://www.easybits.cloud/api/v2/agents/"@;
    let tail = "/message"@;
    let u = message_url_text(agent);
    assert(u.take(41) =~= base);
    assert(u.subrange(41, 41 + agent.len() as int) =~= agent);
    assert(u.skip(41 + agent.len() as int) =~= tail);
    if message_url_text(agent) == message_url_text(other) {
        let w = message_url_text(other);
        assert(w.subrange(41, 41 + other.len() as int) =~= other);
        assert(agent.len() == other.len());
    }
}

/// The JSON body that posts `content` in `session`.
pub fn message_body(content: &str, session: &str) -> (r: String)
    ensures
        r@ == json_object_text("content"@, content@, "sessionId"@, session@),
{
    json_object_of("content", content, "sessionId", session)
}

/// The error a refused request reports: the status, then at most the first
/// 200 characters of the response body.
pub open spec fn http_error_text(status: Seq<char>, body: Seq<char>) -> Seq<char> {
    "HTTP "@ + status + ": "@ + body.take(if body.len() < 200 {
        body.len() as int
    } else {
        200
    })
}

/// The error a refused request reports.
pub fn http_error_message(status: &str, body: &str) -> (r: String)
    ensures
        r@ == http_error_text(status@, body@),
{
    let mut m = "HTTP ".to_owned();
    m.append(status);
    m.append(": ");
    let chars = chars_of(body);
    let keep = if chars.len() < 200 {
        chars.len()
    } else {
        200
    };
    let head = string_of(&chars, 0, keep);
    m.append(head.as_str());
    m
}

} // verus!
