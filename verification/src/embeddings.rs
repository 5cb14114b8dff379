//! Which provider turns a text into a vector, and which stands in for it.
//!
//! Vectors of different models cannot be compared, so the name of the model
//! goes with every vector.

use vstd::prelude::*;
use crate::text::{join_of, joined, lemma_views_push, opt_view, views};

verus! {

pub const GEMINI_MODEL: &'static str = "gemini-embedding-001";

/// Dimensions to which vectors of Gemini are cut.
pub const GEMINI_DIMENSIONS: usize = 768;

pub const GEMINI_MODEL_ID: &'static str = "gemini:gemini-embedding-001@768";

pub const MISTRAL_MODEL: &'static str = "mistral-embed";

pub const MISTRAL_DIMENSIONS: usize = 1024;

pub const MISTRAL_MODEL_ID: &'static str = "mistral:mistral-embed@1024";

pub const COHERE_MODEL: &'static str = "embed-english-v3.0";

pub const COHERE_DIMENSIONS: usize = 1024;

pub const COHERE_MODEL_ID: &'static str = "cohere:embed-english-v3.0@1024";

/// The keys of the providers that can be asked.
#[derive(Debug, PartialEq, Eq)]
pub struct EmbeddingKeys {
    pub gemini: Option<String>,
    pub mistral: Option<String>,
    pub cohere: Option<String>,
}

/// Mathematical counterpart of [`EmbeddingKeys`].
pub struct KeysModel {
    pub gemini: Option<Seq<char>>,
    pub mistral: Option<Seq<char>>,
    pub cohere: Option<Seq<char>>,
}

impl View for EmbeddingKeys {
    type V = KeysModel;

    open spec fn view(&self) -> KeysModel {
        KeysModel {
            gemini: opt_view(self.gemini),
            mistral: opt_view(self.mistral),
            cohere: opt_view(self.cohere),
        }
    }
}

impl Default for EmbeddingKeys {
    fn default() -> (r: EmbeddingKeys)
        ensures
            r@ == (KeysModel { gemini: None, mistral: None, cohere: None }),
    {
        EmbeddingKeys { gemini: None, mistral: None, cohere: None }
    }
}

/// A key counts only if it is not empty.
pub open spec fn real_key(key: Option<Seq<char>>) -> Option<Seq<char>> {
    match key {
        Some(k) => if k.len() > 0 {
            Some(k)
        } else {
            None
        },
        None => None,
    }
}

fn keep(key: Option<String>) -> (r: Option<String>)
    ensures
        opt_view(r) == real_key(opt_view(key)),
{
    match key {
        Some(k) => {
            if k.as_str().is_empty() {
                None
            } else {
                Some(k)
            }
        },
        None => None,
    }
}

impl EmbeddingKeys {
    /// The keys as they are set; empty ones do not count.
    pub fn from_settings(
        gemini: Option<String>,
        mistral: Option<String>,
        cohere: Option<String>,
    ) -> (r: EmbeddingKeys)
        ensures
            r@ == (KeysModel {
                gemini: real_key(opt_view(gemini)),
                mistral: real_key(opt_view(mistral)),
                cohere: real_key(opt_view(cohere)),
            }),
    {
        EmbeddingKeys { gemini: keep(gemini), mistral: keep(mistral), cohere: keep(cohere) }
    }

    /// Whether any provider can be asked.
    pub fn any_configured(&self) -> (r: bool)
        ensures
            r == (exists|p: Provider| #[trigger] key_of(self@, p) is Some),
    {
        let r = self.gemini.is_some() || self.mistral.is_some() || self.cohere.is_some();
        proof {
            if r {
                if self.gemini is Some {
                    assert(key_of(self@, Provider::Gemini) is Some);
                } else if self.mistral is Some {
                    assert(key_of(self@, Provider::Mistral) is Some);
                } else {
                    assert(key_of(self@, Provider::Cohere) is Some);
                }
            }
        }
        r
    }

    /// The key of a provider.
    pub fn key(&self, p: Provider) -> (r: Option<&str>)
        ensures
            opt_view(r) == key_of(self@, p),
    {
        let key = match p {
            Provider::Gemini => &self.gemini,
            Provider::Mistral => &self.mistral,
            Provider::Cohere => &self.cohere,
        };
        match key {
            Some(k) => Some(k.as_str()),
            None => None,
        }
    }
}

/// Whoever turns a text into a vector.
#[derive(Debug, Clone, Copy, PartialEq, Eq, Structural)]
pub enum Provider {
    Gemini,
    Mistral,
    Cohere,
}

pub open spec fn key_of(keys: KeysModel, p: Provider) -> Option<Seq<char>> {
    match p {
        Provider::Gemini => keys.gemini,
        Provider::Mistral => keys.mistral,
        Provider::Cohere => keys.cohere,
    }
}

/// The place of a provider in the order in which they are asked.
pub open spec fn place(p: Provider) -> int {
    match p {
        Provider::Gemini => 0,
        Provider::Mistral => 1,
        Provider::Cohere => 2,
    }
}

impl Provider {
    pub open spec fn spoken_name(self) -> Seq<char> {
        match self {
            Provider::Gemini => "gemini"@,
            Provider::Mistral => "mistral"@,
            Provider::Cohere => "cohere"@,
        }
    }

    pub open spec fn tag(self) -> Seq<char> {
        match self {
            Provider::Gemini => GEMINI_MODEL_ID@,
            Provider::Mistral => MISTRAL_MODEL_ID@,
            Provider::Cohere => COHERE_MODEL_ID@,
        }
    }

    pub fn name(&self) -> (r: &'static str)
        ensures
            r@ == self.spoken_name(),
    {
        match self {
            Provider::Gemini => "gemini",
            Provider::Mistral => "mistral",
            Provider::Cohere => "cohere",
        }
    }

    /// The name that goes with every vector of this provider.
    pub fn model_id(&self) -> (r: &'static str)
        ensures
            r@ == self.tag(),
    {
        match self {
            Provider::Gemini => GEMINI_MODEL_ID,
            Provider::Mistral => MISTRAL_MODEL_ID,
            Provider::Cohere => COHERE_MODEL_ID,
        }
    }
}

/// Why there is no vector.
#[derive(Debug, PartialEq, Eq)]
pub enum EmbedError {
    /// The provider could not be reached or understood.
    Http { provider: &'static str, source: String },
    /// The provider refused.
    Api { provider: &'static str, body: String },
    /// No provider can be asked.
    NoProvider,
    /// Every provider failed; what each of them said.
    AllFailed(String),
}

/// Mathematical counterpart of [`EmbedError`].
pub enum EmbedErrorModel {
    Http { provider: Seq<char>, source: Seq<char> },
    Api { provider: Seq<char>, body: Seq<char> },
    NoProvider,
    AllFailed(Seq<char>),
}

impl View for EmbedError {
    type V = EmbedErrorModel;

    open spec fn view(&self) -> EmbedErrorModel {
        match *self {
            EmbedError::Http { provider, source } => EmbedErrorModel::Http {
                provider: provider@,
                source: source@,
            },
            EmbedError::Api { provider, body } => EmbedErrorModel::Api {
                provider: provider@,
                body: body@,
            },
            EmbedError::NoProvider => EmbedErrorModel::NoProvider,
            EmbedError::AllFailed(m) => EmbedErrorModel::AllFailed(m@),
        }
    }
}

impl EmbedErrorModel {
    /// The text shown to a person.
    pub open spec fn message(self) -> Seq<char> {
        match self {
            EmbedErrorModel::Http { provider, source } => provider
                + ": fallo de red o deserialización: "@ + source,
            EmbedErrorModel::Api { provider, body } => provider
                + ": la API devolvió un error: "@ + body,
            EmbedErrorModel::NoProvider => "no hay proveedor de embeddings configurado"@,
            EmbedErrorModel::AllFailed(m) => "todos los proveedores de embeddings fallaron: "@ + m,
        }
    }
}

impl EmbedError {
    /// The text shown to a person.
    pub fn message(&self) -> (r: String)
        ensures
            r@ == self@.message(),
    {
        match self {
            EmbedError::Http { provider, source } => {
                let mut m = (*provider).to_owned();
                m.push_str(": fallo de red o deserialización: ");
                m.push_str(source.as_str());
                m
            },
            EmbedError::Api { provider, body } => {
                let mut m = (*provider).to_owned();
                m.push_str(": la API devolvió un error: ");
                m.push_str(body.as_str());
                m
            },
            EmbedError::NoProvider => "no hay proveedor de embeddings configurado".to_owned(),
            EmbedError::AllFailed(e) => {
                let mut m = "todos los proveedores de embeddings fallaron: ".to_owned();
                m.push_str(e.as_str());
                m
            },
        }
    }
}

// ---------------------------------------------------------------------
// The chain
// ---------------------------------------------------------------------

/// The first provider with a key, from a place in the order on.
pub open spec fn provider_from(keys: KeysModel, i: int) -> Option<Provider> {
    if i <= 0 && keys.gemini is Some {
        Some(Provider::Gemini)
    } else if i <= 1 && keys.mistral is Some {
        Some(Provider::Mistral)
    } else if i <= 2 && keys.cohere is Some {
        Some(Provider::Cohere)
    } else {
        None
    }
}

/// What was said by the providers that failed, and who is asked now.
#[derive(Debug, PartialEq, Eq)]
pub struct Chain {
    pub asked: Provider,
    pub errors: Vec<String>,
}

/// Mathematical counterpart of [`Chain`].
pub struct ChainModel {
    pub asked: Provider,
    pub errors: Seq<Seq<char>>,
}

impl View for Chain {
    type V = ChainModel;

    open spec fn view(&self) -> ChainModel {
        ChainModel { asked: self.asked, errors: views(self.errors@) }
    }
}

/// What to do next.
#[derive(Debug, PartialEq, Eq)]
pub enum ChainStep {
    /// Ask a provider; a vector that it gives goes with its name.
    Ask(Chain),
    GiveUp(EmbedError),
}

/// Mathematical counterpart of [`ChainStep`].
pub enum StepModel {
    Ask(ChainModel),
    GiveUp(EmbedErrorModel),
}

impl View for ChainStep {
    type V = StepModel;

    open spec fn view(&self) -> StepModel {
        match *self {
            ChainStep::Ask(c) => StepModel::Ask(c@),
            ChainStep::GiveUp(e) => StepModel::GiveUp(e@),
        }
    }
}

/// The step from a place in the order on, after some failures.
pub open spec fn step_from(keys: KeysModel, i: int, errors: Seq<Seq<char>>) -> StepModel {
    match provider_from(keys, i) {
        Some(asked) => StepModel::Ask(ChainModel { asked, errors }),
        None => if errors.len() == 0 {
            StepModel::GiveUp(EmbedErrorModel::NoProvider)
        } else {
            StepModel::GiveUp(
                EmbedErrorModel::AllFailed(joined(errors, errors.len() as int, " | "@)),
            )
        },
    }
}

fn next_step(keys: &EmbeddingKeys, i: u8, errors: Vec<String>) -> (r: ChainStep)
    ensures
        r@ == step_from(keys@, i as int, views(errors@)),
{
    if i <= 0 && keys.gemini.is_some() {
        ChainStep::Ask(Chain { asked: Provider::Gemini, errors })
    } else if i <= 1 && keys.mistral.is_some() {
        ChainStep::Ask(Chain { asked: Provider::Mistral, errors })
    } else if i <= 2 && keys.cohere.is_some() {
        ChainStep::Ask(Chain { asked: Provider::Cohere, errors })
    } else if errors.len() == 0 {
        ChainStep::GiveUp(EmbedError::NoProvider)
    } else {
        ChainStep::GiveUp(EmbedError::AllFailed(join_of(&errors, " | ")))
    }
}

/// The first step.
pub fn begin(keys: &EmbeddingKeys) -> (r: ChainStep)
    ensures
        r@ == step_from(keys@, 0, Seq::empty()),
{
    let none: Vec<String> = Vec::new();
    assert(views(none@) =~= Seq::empty());
    next_step(keys, 0, none)
}

impl Chain {
    /// The step after the provider that was asked failed.
    pub fn failed(self, keys: &EmbeddingKeys, error: String) -> (r: ChainStep)
        ensures
            r@ == step_from(keys@, place(self@.asked) + 1, self@.errors.push(error@)),
    {
        let Chain { asked, mut errors } = self;
        proof {
            lemma_views_push(errors@, error);
        }
        errors.push(error);
        let at: u8 = match asked {
            Provider::Gemini => 1,
            Provider::Mistral => 2,
            Provider::Cohere => 3,
        };
        next_step(keys, at, errors)
    }
}

/// Only providers with a key are asked, in order, none of them twice, and
/// whoever has a key is asked before giving up.
pub proof fn law_every_provider_has_its_turn(keys: KeysModel, i: int, errors: Seq<Seq<char>>, p: Provider)
    requires
        0 <= i,
    ensures
        match step_from(keys, i, errors) {
            StepModel::Ask(c) => {
                &&& key_of(keys, c.asked) is Some
                &&& place(c.asked) >= i
                &&& (i <= place(p) < place(c.asked) ==> key_of(keys, p) is None)
            },
            StepModel::GiveUp(_) => place(p) >= i ==> key_of(keys, p) is None,
        },
{
}

} // verus!
