//! The rules around the embedding gateway.
//!
//! The gateway is a remote service: it turns a text into an embedding, and it
//! rewrites a text under an instruction. The calls are made elsewhere. Here
//! is what decides which call comes next and what a reply means.

use vstd::prelude::*;

verus! {

/// The gateway could not deliver; `msg` says why.
#[derive(Debug, PartialEq, Eq)]
pub struct GatewayError {
    pub msg: String,
}

/// A call to make to the gateway.
#[derive(Debug, PartialEq, Eq)]
pub enum GatewayCall {
    /// Rewrite `text` in one exchange, with `instruction` as the directive,
    /// and take the first alternative.
    Expand { instruction: String, text: String },
    /// Embed `text`.
    Embed { text: String },
}

/// What happened last.
#[derive(Debug, PartialEq, Eq)]
pub enum GatewayEvent {
    /// Nothing yet.
    Begin,
    /// The rewrite came back: the new text, or the provider's message.
    Expanded(Result<String, String>),
    /// The embedding came back: the reply with or without an embedding in
    /// it, or the provider's message.
    Embedded(Result<Option<Vec<u64>>, String>),
}

/// What to do next.
#[derive(Debug, PartialEq, Eq)]
pub enum GatewayStep {
    /// Make this call and come back with its reply.
    Call(GatewayCall),
    /// The embedding, or the reason why there is none.
    Done(Result<Vec<u64>, GatewayError>),
}

/// Whether `result` is what the reply to an embedding request amounts to:
/// the embedding if the reply holds one, an error that says so if it holds
/// none, and the provider's message if the request failed.
pub open spec fn reads_as(
    reply: Result<Option<Vec<u64>>, String>,
    result: Result<Vec<u64>, GatewayError>,
) -> bool {
    match reply {
        Ok(Some(embedding)) => result == Ok::<Vec<u64>, GatewayError>(embedding),
        Ok(None) => result matches Err(e) && e.msg@ == "No search embeddings were found"@,
        Err(message) => result == Err::<Vec<u64>, GatewayError>(GatewayError { msg: message }),
    }
}

/// Whether `step` asks to embed `text`.
pub open spec fn asks_to_embed(step: GatewayStep, text: Seq<char>) -> bool {
    step matches GatewayStep::Call(GatewayCall::Embed { text: asked }) && asked@ == text
}

/// Whether `step` asks to rewrite `text` under `instruction`.
pub open spec fn asks_to_expand(step: GatewayStep, instruction: Seq<char>, text: Seq<char>) -> bool {
    step matches GatewayStep::Call(GatewayCall::Expand { instruction: directive, text: asked })
        && directive@ == instruction && asked@ == text
}

fn read_reply(reply: Result<Option<Vec<u64>>, String>) -> (result: Result<Vec<u64>, GatewayError>)
    ensures
        reads_as(reply, result),
{
    match reply {
        Ok(Some(embedding)) => Ok(embedding),
        Ok(None) => Err(GatewayError { msg: "No search embeddings were found".to_owned() }),
        Err(message) => Err(GatewayError { msg: message }),
    }
}

/// The next step towards the embedding of the content to add.
///
/// The content is embedded as it is: until the embedding's reply is in, the
/// step is to ask for it; the reply ends the matter.
pub fn get_add_embeddings(content: &str, event: GatewayEvent) -> (step: GatewayStep)
    ensures
        match event {
            GatewayEvent::Embedded(reply) => step matches GatewayStep::Done(result) && reads_as(
                reply,
                result,
            ),
            _ => asks_to_embed(step, content@),
        },
{
    match event {
        GatewayEvent::Embedded(reply) => GatewayStep::Done(read_reply(reply)),
        _ => GatewayStep::Call(GatewayCall::Embed { text: content.to_owned() }),
    }
}

/// The next step towards the embedding of a search.
///
/// With a prompt the search term is first rewritten under it and the
/// rewritten text is embedded; a failed rewrite ends the matter. Without a
/// prompt the term is embedded as the content of an add is.
pub fn get_search_embeddings(prompt: Option<&str>, search_term: &str, event: GatewayEvent) -> (step:
    GatewayStep)
    ensures
        match event {
            GatewayEvent::Begin => match prompt {
                Some(instruction) => asks_to_expand(step, instruction@, search_term@),
                None => asks_to_embed(step, search_term@),
            },
            GatewayEvent::Expanded(Ok(rewritten)) => step == GatewayStep::Call(
                GatewayCall::Embed { text: rewritten },
            ),
            GatewayEvent::Expanded(Err(message)) => step == GatewayStep::Done(
                Err(GatewayError { msg: message }),
            ),
            GatewayEvent::Embedded(reply) => step matches GatewayStep::Done(result) && reads_as(
                reply,
                result,
            ),
        },
{
    match event {
        GatewayEvent::Begin => match prompt {
            Some(instruction) => GatewayStep::Call(
                GatewayCall::Expand {
                    instruction: instruction.to_owned(),
                    text: search_term.to_owned(),
                },
            ),
            None => get_add_embeddings(search_term, GatewayEvent::Begin),
        },
        GatewayEvent::Expanded(Ok(rewritten)) => GatewayStep::Call(
            GatewayCall::Embed { text: rewritten },
        ),
        GatewayEvent::Expanded(Err(message)) => GatewayStep::Done(
            Err(GatewayError { msg: message }),
        ),
        GatewayEvent::Embedded(reply) => get_add_embeddings(search_term, GatewayEvent::Embedded(reply)),
    }
}

} // verus!
