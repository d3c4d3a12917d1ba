//! Provider profiles: which shadow encoding and which tokenizer each provider uses.
use vstd::prelude::*;

verus! {

#[derive(Debug, Clone, Copy, PartialEq, Eq, Structural)]
pub enum Provider {
    Generic,
    Openai,
    Anthropic,
}

impl Default for Provider {
    fn default() -> (p: Self)
        ensures
            p == Provider::Generic,
    {
        Provider::Generic
    }
}

#[derive(Debug, Clone, Copy, PartialEq, Eq, Structural)]
pub enum SupportStatus {
    Supported,
    Unsupported,
}

#[derive(Debug, Clone, Copy, PartialEq, Eq, Structural)]
pub enum ShadowProfile {
    /// Compact `@`-marker encoding (generic and openai providers).
    V0,
    /// XML-tag encoding (anthropic provider).
    V1Anthropic,
}

#[derive(Debug, Clone, Copy, PartialEq, Eq, Structural)]
pub enum TokenizerProfile {
    Cl100kBase,
    O200kBase,
}

/// A provider whose profile has no supported path.
#[derive(Debug, Clone, Copy, PartialEq, Eq, Structural)]
pub enum ProfileError {
    Unsupported(Provider),
}

pub open spec fn tokenizer_name(t: TokenizerProfile) -> Seq<char> {
    match t {
        TokenizerProfile::Cl100kBase => "cl100k_base"@,
        TokenizerProfile::O200kBase => "o200k_base"@,
    }
}

impl TokenizerProfile {
    pub fn identifier(self) -> (s: &'static str)
        ensures
            s@ == tokenizer_name(self),
    {
        match self {
            TokenizerProfile::Cl100kBase => "cl100k_base",
            TokenizerProfile::O200kBase => "o200k_base",
        }
    }
}

#[derive(Debug, Clone, Copy, PartialEq, Eq, Structural)]
pub struct ProviderProfile {
    provider: Provider,
}

pub open spec fn provider_name(p: Provider) -> Seq<char> {
    match p {
        Provider::Generic => "generic"@,
        Provider::Openai => "openai"@,
        Provider::Anthropic => "anthropic"@,
    }
}

/// The shadow encoding of a provider.
pub open spec fn shadow_profile_of(p: Provider) -> ShadowProfile {
    match p {
        Provider::Generic | Provider::Openai => ShadowProfile::V0,
        Provider::Anthropic => ShadowProfile::V1Anthropic,
    }
}

/// The tokenizer of a provider.
pub open spec fn tokenizer_profile_of(p: Provider) -> TokenizerProfile {
    match p {
        Provider::Generic | Provider::Openai => TokenizerProfile::Cl100kBase,
        Provider::Anthropic => TokenizerProfile::O200kBase,
    }
}

impl Provider {
    pub fn profile(self) -> (p: ProviderProfile)
        ensures
            p.view_provider() == self,
    {
        ProviderProfile { provider: self }
    }

    pub fn as_str(self) -> (s: &'static str)
        ensures
            s@ == provider_name(self),
    {
        match self {
            Provider::Generic => "generic",
            Provider::Openai => "openai",
            Provider::Anthropic => "anthropic",
        }
    }
}

impl ProviderProfile {
    /// The provider this profile describes.
    pub closed spec fn view_provider(self) -> Provider {
        self.provider
    }

    pub fn provider(self) -> (p: Provider)
        ensures
            p == self.view_provider(),
    {
        self.provider
    }

    pub fn shadow_support(self) -> (s: SupportStatus)
        ensures
            s == SupportStatus::Supported,
    {
        match self.provider {
            Provider::Generic | Provider::Openai | Provider::Anthropic => SupportStatus::Supported,
        }
    }

    pub fn tokenizer_support(self) -> (s: SupportStatus)
        ensures
            s == SupportStatus::Supported,
    {
        match self.provider {
            Provider::Generic | Provider::Openai | Provider::Anthropic => SupportStatus::Supported,
        }
    }

    pub fn shadow_profile(self) -> (r: Result<ShadowProfile, ProfileError>)
        ensures
            r == Ok::<ShadowProfile, ProfileError>(shadow_profile_of(self.view_provider())),
    {
        match self.provider {
            Provider::Generic | Provider::Openai => Ok(ShadowProfile::V0),
            Provider::Anthropic => Ok(ShadowProfile::V1Anthropic),
        }
    }

    pub fn tokenizer_profile(self) -> (r: Result<TokenizerProfile, ProfileError>)
        ensures
            r == Ok::<TokenizerProfile, ProfileError>(tokenizer_profile_of(self.view_provider())),
    {
        match self.provider {
            Provider::Generic | Provider::Openai => Ok(TokenizerProfile::Cl100kBase),
            Provider::Anthropic => Ok(TokenizerProfile::O200kBase),
        }
    }
}

} // verus!
