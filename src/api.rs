//! Settings for the completion and embedding services, and which endpoint
//! serves each provider. The calls themselves are made by the application.
use vstd::prelude::*;

verus! {

/// A provider of completions and embeddings.
#[derive(Debug, PartialEq, Eq, Structural, Copy, Clone)]
pub enum Provider {
    OpenAI,
    OpenRouter,
}

/// How to ask for a completion.
pub struct GPTOptions<'a> {
    pub model: &'a str,
    pub provider: Provider,
    pub api_key: &'a str,
    /// Text put before every prompt.
    pub prefix: String,
}

/// How to ask for an embedding.
pub struct EmbeddingOptions<'a> {
    pub model: &'a str,
    pub provider: Provider,
    pub api_key: &'a str,
}

/// The chat-completions endpoint of `provider`.
pub fn completion_url(provider: Provider) -> (r: &'static str)
    ensures
        provider == Provider::OpenAI ==> r@ == "https://api.openai.com/v1/chat/completions"@,
        provider == Provider::OpenRouter ==> r@ == "https://openrouter.ai/api/v1/chat/completions"@,
{
    match provider {
        Provider::OpenAI => "https://api.openai.com/v1/chat/completions",
        Provider::OpenRouter => "https://openrouter.ai/api/v1/chat/completions",
    }
}

/// The embeddings endpoint of `provider`; OpenRouter serves none.
pub fn embedding_url(provider: Provider) -> (r: Option<&'static str>)
    ensures
        provider == Provider::OpenAI ==> (r matches Some(u) && u@ == "https://api.openai.com/v1/embeddings"@),
        provider == Provider::OpenRouter ==> r is None,
{
    match provider {
        Provider::OpenAI => Some("https://api.openai.com/v1/embeddings"),
        Provider::OpenRouter => None,
    }
}

} // verus!
