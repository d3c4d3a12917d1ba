//! Token counts under the tokenizer encoding of each provider profile.
use vstd::prelude::*;

use crate::provider::{tokenizer_name, tokenizer_profile_of, ProfileError, Provider, TokenizerProfile};

verus! {

/// The encoding used where no provider is named.
pub const DEFAULT_ENCODING_NAME: &'static str = "cl100k_base";

/// What the `cl100k_base` encoding makes of `text`, special tokens
/// recognised: the number of its tokens, or `None` where the tokenizer's
/// pattern matcher gives up on the text.
pub uninterp spec fn cl100k_encoding(text: Seq<char>) -> Option<nat>;

/// What the `o200k_base` encoding makes of `text`, special tokens
/// recognised: the number of its tokens, or `None` where the tokenizer's
/// pattern matcher gives up on the text.
pub uninterp spec fn o200k_encoding(text: Seq<char>) -> Option<nat>;

/// `tiktoken_rs::EncodeError`: the tokenizer's pattern matcher gave up on a
/// text (its backtracking stack ran out).
#[verifier::external_type_specification]
#[verifier::external_body]
pub struct ExEncodeError(tiktoken_rs::EncodeError);

/// `CoreBPE::encode(text, &special_tokens())` on
/// `tiktoken_rs::cl100k_base_singleton()`, counted: every special token is
/// recognised. The encoding is a fixed table shipped inside the crate, so a
/// count, and whether the pattern matcher gives up (its backtracking limit
/// is fixed), depend on `text` alone: both are named by `cl100k_encoding`,
/// whose value for a given text is not stated beyond the empty text, which
/// holds no token.
#[verifier::external_body]
fn count_cl100k(text: &str) -> (r: Result<usize, tiktoken_rs::EncodeError>)
    ensures
        r matches Ok(n) ==> cl100k_encoding(text@) == Some(n as nat),
        r is Err ==> cl100k_encoding(text@) is None,
        text@.len() == 0 ==> (r is Ok && r->Ok_0 == 0),
{
    let bpe = tiktoken_rs::cl100k_base_singleton();
    bpe.encode(text, &bpe.special_tokens()).map(|(tokens, _)| tokens.len())
}

/// `CoreBPE::encode(text, &special_tokens())` on
/// `tiktoken_rs::o200k_base_singleton()`, counted: every special token is
/// recognised. The encoding is a fixed table shipped inside the crate, so a
/// count, and whether the pattern matcher gives up (its backtracking limit
/// is fixed), depend on `text` alone: both are named by `o200k_encoding`,
/// whose value for a given text is not stated beyond the empty text, which
/// holds no token.
#[verifier::external_body]
fn count_o200k(text: &str) -> (r: Result<usize, tiktoken_rs::EncodeError>)
    ensures
        r matches Ok(n) ==> o200k_encoding(text@) == Some(n as nat),
        r is Err ==> o200k_encoding(text@) is None,
        text@.len() == 0 ==> (r is Ok && r->Ok_0 == 0),
{
    let bpe = tiktoken_rs::o200k_base_singleton();
    bpe.encode(text, &bpe.special_tokens()).map(|(tokens, _)| tokens.len())
}

/// Why a text could not be counted.
#[derive(Clone, Copy, Debug, PartialEq, Eq, Structural)]
pub enum CountError {
    /// The provider has no tokenizer.
    Unsupported(Provider),
    /// The tokenizer gave up on the text.
    Encoding,
}

/// What the encoding of `profile` makes of `text`: its number of tokens, or
/// `None` where the tokenizer gives up on it.
pub open spec fn token_encoding(profile: TokenizerProfile, text: Seq<char>) -> Option<nat> {
    match profile {
        TokenizerProfile::Cl100kBase => cl100k_encoding(text),
        TokenizerProfile::O200kBase => o200k_encoding(text),
    }
}

/// Whether the tokenizer of `profile` encodes `text`.
pub open spec fn encodes(profile: TokenizerProfile, text: Seq<char>) -> bool {
    token_encoding(profile, text) is Some
}

/// The number of tokens of `text` under `profile`, where it encodes.
pub open spec fn token_count(profile: TokenizerProfile, text: Seq<char>) -> nat {
    match token_encoding(profile, text) {
        Some(n) => n,
        None => 0,
    }
}

/// Counts tokens in one tokenizer encoding.
pub struct TokenCounter {
    profile: TokenizerProfile,
}

impl View for TokenCounter {
    type V = TokenizerProfile;

    closed spec fn view(&self) -> TokenizerProfile {
        self.profile
    }
}

impl TokenCounter {
    /// The counter of the generic provider.
    pub fn new() -> (r: Result<Self, ProfileError>)
        ensures
            r matches Ok(c) && c@ == TokenizerProfile::Cl100kBase,
    {
        Self::for_provider(Provider::Generic)
    }

    /// The counter of the tokenizer that `provider` uses.
    pub fn for_provider(provider: Provider) -> (r: Result<Self, ProfileError>)
        ensures
            r matches Ok(c) && c@ == tokenizer_profile_of(provider),
    {
        let profile = provider.profile().tokenizer_profile()?;
        Ok(TokenCounter { profile })
    }

    /// The name of the encoding.
    pub fn encoding_name(&self) -> (s: &'static str)
        ensures
            s@ == tokenizer_name(self@),
    {
        self.profile.identifier()
    }

    /// The number of tokens of `input`, or `Encoding` where the tokenizer
    /// gives up on it.
    pub fn count(&self, input: &str) -> (r: Result<usize, CountError>)
        ensures
            match r {
                Ok(n) => token_encoding(self@, input@) == Some(n as nat),
                Err(e) => e == CountError::Encoding && !encodes(self@, input@),
            },
            r is Ok <==> encodes(self@, input@),
            input@.len() == 0 ==> r == Ok::<usize, CountError>(0),
    {
        let counted = match self.profile {
            TokenizerProfile::Cl100kBase => count_cl100k(input),
            TokenizerProfile::O200kBase => count_o200k(input),
        };
        match counted {
            Ok(n) => Ok(n),
            Err(_) => Err(CountError::Encoding),
        }
    }
}

/// The number of tokens of `input` in the default encoding, or `Encoding`
/// where the tokenizer gives up on it.
pub fn count_tokens(input: &str) -> (r: Result<usize, CountError>)
    ensures
        match r {
            Ok(n) => cl100k_encoding(input@) == Some(n as nat),
            Err(e) => e == CountError::Encoding && cl100k_encoding(input@) is None,
        },
        r is Ok <==> cl100k_encoding(input@) is Some,
        input@.len() == 0 ==> r == Ok::<usize, CountError>(0),
{
    let counter = match TokenCounter::new() {
        Ok(c) => c,
        Err(ProfileError::Unsupported(p)) => {
            return Err(CountError::Unsupported(p));
        },
    };
    counter.count(input)
}

} // verus!
