//! What is asked of which provider: names, addresses, prompts and limits.

use crate::options::read_optional_setting;
use crate::text::{blank, char_count, clamp, same_text, to_ascii_lowercase, trim};
use vstd::hash_map::StringHashMap;
use vstd::prelude::*;
use vstd::string::*;

verus! {

broadcast use vstd::string::group_string_axioms;

pub const MIN_OUTPUT_TOKENS: usize = 512;

pub const DEFAULT_OUTPUT_TOKENS_CAP: usize = 8_192;

pub const MAX_OUTPUT_TOKENS_CAP: usize = 12_288;

pub const GEMINI_MODEL: &'static str = "gemini-3.1-flash-lite-preview";

pub const OPENAI_MODEL: &'static str = "gpt-5.4-nano";

pub const DEEPSEEK_DEFAULT_MODEL: &'static str = "deepseek-v4-pro";

pub const DEEPSEEK_ALT_MODEL: &'static str = "deepseek-v4-flash";

// ---------------------------------------------------------------------------
// Providers and models
// ---------------------------------------------------------------------------
/// The provider that a name stands for: anything unknown is DeepSeek.
pub open spec fn provider_named(name: Seq<char>) -> Seq<char> {
    let lower = crate::text::ascii_lower(crate::text::trimmed(name));
    if lower == "gemini"@ {
        "gemini"@
    } else if lower == "openai"@ {
        "openai"@
    } else {
        "deepseek"@
    }
}

/// The provider that a name stands for.
pub fn normalize_provider(provider: &str) -> (r: String)
    ensures
        r@ == provider_named(provider@),
{
    let lower = to_ascii_lowercase(trim(provider).as_str());
    if same_text(lower.as_str(), "gemini") {
        "gemini".to_string()
    } else if same_text(lower.as_str(), "openai") {
        "openai".to_string()
    } else {
        "deepseek".to_string()
    }
}

/// The model that is used: DeepSeek lets choose between two, the others have
/// one each.
pub open spec fn model_of(provider: Seq<char>, requested: Seq<char>) -> Seq<char> {
    if provider == "gemini"@ {
        GEMINI_MODEL@
    } else if provider == "openai"@ {
        OPENAI_MODEL@
    } else if crate::text::trimmed(requested) == DEEPSEEK_ALT_MODEL@ {
        DEEPSEEK_ALT_MODEL@
    } else {
        DEEPSEEK_DEFAULT_MODEL@
    }
}

/// The model that is used.
pub fn normalize_model(provider: &str, requested_model: &str) -> (r: String)
    ensures
        r@ == model_of(provider@, requested_model@),
{
    if same_text(provider, "gemini") {
        return GEMINI_MODEL.to_string();
    }
    if same_text(provider, "openai") {
        return OPENAI_MODEL.to_string();
    }
    let model = trim(requested_model);
    if same_text(model.as_str(), DEEPSEEK_DEFAULT_MODEL) || same_text(
        model.as_str(),
        DEEPSEEK_ALT_MODEL,
    ) {
        model
    } else {
        DEEPSEEK_DEFAULT_MODEL.to_string()
    }
}

/// A name stands for the same provider once it was read.
pub proof fn law_reading_a_provider_twice_changes_nothing(name: Seq<char>)
    ensures
        provider_named(provider_named(name)) == provider_named(name),
{
    reveal_strlit("gemini");
    reveal_strlit("openai");
    reveal_strlit("deepseek");
    let p = provider_named(name);
    crate::text::lemma_trim_start_at(p, 0);
    assert(p.take(0) =~= Seq::<char>::empty());
    assert(p.skip(0) =~= p);
    crate::text::lemma_trim_end_at(p, p.len() as int);
    assert(p.take(p.len() as int) =~= p);
    assert(crate::text::trimmed(p) == p);
    assert(crate::text::ascii_lower(p) =~= p);
}

/// The address of chat completions.
pub open spec fn chat_address(provider: Seq<char>) -> Seq<char> {
    if provider == "openai"@ {
        "https://api.openai.com/v1/chat/completions"@
    } else {
        "https://api.deepseek.com/chat/completions"@
    }
}

/// The address of chat completions.
pub fn chat_endpoint(provider: &str) -> (r: String)
    ensures
        r@ == chat_address(provider@),
{
    if same_text(provider, "openai") {
        "https://api.openai.com/v1/chat/completions".to_string()
    } else {
        "https://api.deepseek.com/chat/completions".to_string()
    }
}

/// The address of a model of Gemini, with the key.
pub open spec fn gemini_address(model: Seq<char>, api_key: Seq<char>) -> Seq<char> {
    "https://generativelanguage.googleapis.com/v1beta/models/"@ + model + ":generateContent?key="@
        + api_key
}

/// The address of a model of Gemini, with the key.
pub fn gemini_endpoint(model: &str, api_key: &str) -> (r: String)
    ensures
        r@ == gemini_address(model@, api_key@),
{
    let mut out = "https://generativelanguage.googleapis.com/v1beta/models/".to_string();
    out.append(model);
    out.append(":generateContent?key=");
    out.append(api_key);
    out
}

// ---------------------------------------------------------------------------
// Prompts
// ---------------------------------------------------------------------------
/// What is asked of a translator into a language.
pub open spec fn system_prompt(target_language: Seq<char>) -> Seq<char> {
    "Eres un traductor literario profesional. Traduce al "@ + target_language
        + " con calidad editorial y naturalidad, como una traduccion humana cuidada. Reglas obligatorias: 1) No resumas ni omitas informacion. 2) No agregues explicaciones, notas ni encabezados. 3) Conserva el tono narrativo, estilo y matices. 4) Si aparecen etiquetas HTML/XML, no las modifiques ni las traduzcas. 5) Si aparecen entidades HTML (por ejemplo &amp;, &lt;, &gt;), conservaalas. 6) Respeta saltos de linea. Devuelve unicamente el texto traducido."@
}

fn write_system_prompt(target_language: &str) -> (r: String)
    ensures
        r@ == system_prompt(target_language@),
{
    let mut out = "Eres un traductor literario profesional. Traduce al ".to_string();
    out.append(target_language);
    out.append(
        " con calidad editorial y naturalidad, como una traduccion humana cuidada. Reglas obligatorias: 1) No resumas ni omitas informacion. 2) No agregues explicaciones, notas ni encabezados. 3) Conserva el tono narrativo, estilo y matices. 4) Si aparecen etiquetas HTML/XML, no las modifiques ni las traduzcas. 5) Si aparecen entidades HTML (por ejemplo &amp;, &lt;, &gt;), conservaalas. 6) Respeta saltos de linea. Devuelve unicamente el texto traducido.",
    );
    out
}

/// Prompts that were written before, by language.
pub struct PromptCache {
    known: StringHashMap<String>,
}

impl View for PromptCache {
    type V = Map<Seq<char>, Seq<char>>;

    closed spec fn view(&self) -> Map<Seq<char>, Seq<char>> {
        self.known@.map_values(|prompt: String| prompt@)
    }
}

impl PromptCache {
    /// Every prompt is that of its language.
    pub open spec fn well_formed(&self) -> bool {
        forall|language: Seq<char>| #[trigger]
            self@.contains_key(language) ==> self@[language] == system_prompt(language)
    }

    /// No prompt is known.
    pub fn new() -> (r: PromptCache)
        ensures
            r.well_formed(),
            r@ == Map::<Seq<char>, Seq<char>>::empty(),
    {
        let cache = PromptCache { known: StringHashMap::new() };
        assert(cache@ =~= Map::<Seq<char>, Seq<char>>::empty());
        cache
    }
}

/// The prompt for a language: written once and remembered.
pub fn get_system_prompt(cache: &mut PromptCache, target_language: &str) -> (r: String)
    requires
        old(cache).well_formed(),
    ensures
        final(cache).well_formed(),
        r@ == system_prompt(target_language@),
        final(cache)@ == old(cache)@.insert(target_language@, r@),
{
    let ghost before = cache@;
    if let Some(prompt) = cache.known.get(target_language) {
        let found = prompt.clone();
        assert(before.contains_key(target_language@));
        assert(before[target_language@] == found@);
        assert(cache@ =~= before.insert(target_language@, found@));
        return found;
    }
    let prompt = write_system_prompt(target_language);
    let copy = prompt.clone();
    let ghost p = prompt@;
    cache.known.insert(target_language.to_string(), prompt);
    assert(cache@ =~= before.insert(target_language@, p));
    copy
}

/// What is asked where Chinese characters slipped in.
pub open spec fn strict_prompt(target_language: Seq<char>) -> Seq<char> {
    system_prompt(target_language) + " IMPORTANTE: Responde SOLO en "@ + target_language
        + ". NO uses chino simplificado ni tradicional. Si no sabes un termino, transliteralo o dejalo en el idioma original, pero nunca chino."@
}

fn get_strict_prompt(cache: &mut PromptCache, target_language: &str) -> (r: String)
    requires
        old(cache).well_formed(),
    ensures
        final(cache).well_formed(),
        r@ == strict_prompt(target_language@),
        final(cache)@ == old(cache)@.insert(target_language@, system_prompt(target_language@)),
{
    let mut out = get_system_prompt(cache, target_language);
    out.append(" IMPORTANTE: Responde SOLO en ");
    out.append(target_language);
    out.append(
        ". NO uses chino simplificado ni tradicional. Si no sabes un termino, transliteralo o dejalo en el idioma original, pero nunca chino.",
    );
    out
}

// ---------------------------------------------------------------------------
// Limits
// ---------------------------------------------------------------------------
/// How many tokens an answer may have: as set, or by the length of the text.
pub open spec fn output_tokens(text_len: nat, setting: Option<nat>) -> int {
    match setting {
        Some(n) => crate::text::clamped(
            n as int,
            MIN_OUTPUT_TOKENS as int,
            MAX_OUTPUT_TOKENS_CAP as int,
        ),
        None => crate::text::clamped(
            (text_len * 7) as int / 20 + 256,
            MIN_OUTPUT_TOKENS as int,
            DEFAULT_OUTPUT_TOKENS_CAP as int,
        ),
    }
}

/// How many tokens an answer may have.
pub fn resolve_max_output_tokens(text: &str, setting: Option<&str>) -> (r: usize)
    ensures
        r == output_tokens(
            text@.len(),
            crate::options::setting_value(crate::options::opt_view(setting)),
        ),
        MIN_OUTPUT_TOKENS <= r <= MAX_OUTPUT_TOKENS_CAP,
{
    if let Some(value) = read_optional_setting(setting) {
        return clamp(value, MIN_OUTPUT_TOKENS, MAX_OUTPUT_TOKENS_CAP);
    }
    let chars = char_count(text);
    if chars >= 100_000 {
        return DEFAULT_OUTPUT_TOKENS_CAP;
    }
    clamp(chars * 7 / 20 + 256, MIN_OUTPUT_TOKENS, DEFAULT_OUTPUT_TOKENS_CAP)
}

// ---------------------------------------------------------------------------
// Requests
// ---------------------------------------------------------------------------
/// A request to a provider.
pub enum RequestPlan {
    /// A prompt that holds the text, for Gemini.
    Gemini { endpoint: String, prompt: String },
    /// A system prompt beside the text, for chat completions.
    Chat {
        provider: String,
        endpoint: String,
        authorization: String,
        model: String,
        max_tokens: usize,
        system_prompt: String,
    },
}

/// A request, as characters.
pub enum RequestSpec {
    Gemini { endpoint: Seq<char>, prompt: Seq<char> },
    Chat {
        provider: Seq<char>,
        endpoint: Seq<char>,
        authorization: Seq<char>,
        model: Seq<char>,
        max_tokens: int,
        system_prompt: Seq<char>,
    },
}

impl View for RequestPlan {
    type V = RequestSpec;

    open spec fn view(&self) -> RequestSpec {
        match self {
            RequestPlan::Gemini { endpoint, prompt } => RequestSpec::Gemini {
                endpoint: endpoint@,
                prompt: prompt@,
            },
            RequestPlan::Chat {
                provider,
                endpoint,
                authorization,
                model,
                max_tokens,
                system_prompt,
            } => RequestSpec::Chat {
                provider: provider@,
                endpoint: endpoint@,
                authorization: authorization@,
                model: model@,
                max_tokens: *max_tokens as int,
                system_prompt: system_prompt@,
            },
        }
    }
}

/// Who asks whom for what.
pub struct Inquiry<'a> {
    pub api_key: &'a str,
    pub provider: &'a str,
    pub model: &'a str,
    pub target_language: &'a str,
    pub text: &'a str,
    /// A setting for the number of tokens of the answer.
    pub max_tokens_setting: Option<&'a str>,
}

/// The request that is sent with a prompt. The key goes to the chosen provider,
/// without the white space around it.
pub open spec fn request_with(inquiry: Inquiry, prompt: Seq<char>) -> RequestSpec {
    let provider = provider_named(inquiry.provider@);
    let model = model_of(provider, inquiry.model@);
    if provider == "gemini"@ {
        RequestSpec::Gemini {
            endpoint: gemini_address(model, crate::text::trimmed(inquiry.api_key@)),
            prompt: prompt + "\n\nTexto:\n"@ + inquiry.text@,
        }
    } else {
        RequestSpec::Chat {
            provider,
            endpoint: chat_address(provider),
            authorization: "Bearer "@ + crate::text::trimmed(inquiry.api_key@),
            model,
            max_tokens: output_tokens(
                inquiry.text@.len(),
                crate::options::setting_value(
                    crate::options::opt_view(inquiry.max_tokens_setting),
                ),
            ),
            system_prompt: prompt,
        }
    }
}

/// Why a text is not sent: it is blank.
pub open spec fn text_fault(text: Seq<char>) -> Option<Seq<char>> {
    if crate::text::is_blank(text) {
        Some("El texto a traducir esta vacio"@)
    } else {
        None
    }
}

/// Checks a text before it is sent: a blank one fails at once.
pub fn check_text(text: &str) -> (r: Result<(), String>)
    ensures
        match r {
            Ok(()) => text_fault(text@) is None,
            Err(error) => text_fault(text@) == Some(error@),
        },
        r is Err <==> crate::text::is_blank(text@),
{
    if blank(text) {
        Err("El texto a traducir esta vacio".to_string())
    } else {
        Ok(())
    }
}

/// Decides what is sent to have a text translated. A blank text fails, and
/// nothing is sent.
pub fn plan_request(cache: &mut PromptCache, inquiry: &Inquiry, strict: bool) -> (r: Result<
    RequestPlan,
    String,
>)
    requires
        old(cache).well_formed(),
    ensures
        final(cache).well_formed(),
        match r {
            Err(error) => {
                &&& text_fault(inquiry.text@) == Some(error@)
                &&& final(cache)@ == old(cache)@
            },
            Ok(plan) => {
                &&& text_fault(inquiry.text@) is None
                &&& plan@ == request_with(
                    *inquiry,
                    if strict {
                        strict_prompt(inquiry.target_language@)
                    } else {
                        system_prompt(inquiry.target_language@)
                    },
                )
                &&& final(cache)@ == old(cache)@.insert(
                    inquiry.target_language@,
                    system_prompt(inquiry.target_language@),
                )
            },
        },
{
    if let Err(error) = check_text(inquiry.text) {
        return Err(error);
    }
    let api_key = trim(inquiry.api_key);
    let provider = normalize_provider(inquiry.provider);
    let model = normalize_model(provider.as_str(), inquiry.model);
    let prompt = if strict {
        get_strict_prompt(cache, inquiry.target_language)
    } else {
        get_system_prompt(cache, inquiry.target_language)
    };
    if same_text(provider.as_str(), "gemini") {
        let endpoint = gemini_endpoint(model.as_str(), api_key.as_str());
        let mut whole = prompt;
        whole.append("\n\nTexto:\n");
        whole.append(inquiry.text);
        return Ok(RequestPlan::Gemini { endpoint, prompt: whole });
    }
    let endpoint = chat_endpoint(provider.as_str());
    let max_tokens = resolve_max_output_tokens(inquiry.text, inquiry.max_tokens_setting);
    let mut authorization = "Bearer ".to_string();
    authorization.append(api_key.as_str());
    Ok(
        RequestPlan::Chat {
            provider,
            endpoint,
            authorization,
            model,
            max_tokens,
            system_prompt: prompt,
        },
    )
}

// ---------------------------------------------------------------------------
// Checking a key
// ---------------------------------------------------------------------------
/// A request that only checks a key.
pub enum KeyCheck {
    Gemini { endpoint: String },
    Chat { endpoint: String, authorization: String, model: String },
}

/// Decides what is sent to check a key. A blank key is refused at once.
pub fn plan_key_check(api_key: &str, provider: &str, model: &str) -> (r: Result<KeyCheck, String>)
    ensures
        match r {
            Err(error) => crate::text::is_blank(api_key@) && error@
                == "La API key no puede estar vacia"@,
            Ok(KeyCheck::Gemini { endpoint }) => !crate::text::is_blank(api_key@)
                && provider_named(provider@) == "gemini"@ && endpoint@ == gemini_address(
                GEMINI_MODEL@,
                crate::text::trimmed(api_key@),
            ),
            Ok(KeyCheck::Chat { endpoint, authorization, model: used }) => !crate::text::is_blank(
                api_key@,
            ) && provider_named(provider@) != "gemini"@ && endpoint@ == chat_address(
                provider_named(provider@),
            ) && authorization@ == "Bearer "@ + crate::text::trimmed(api_key@) && used@ == model_of(
                provider_named(provider@),
                model@,
            ),
        },
{
    if blank(api_key) {
        return Err("La API key no puede estar vacia".to_string());
    }
    let key = trim(api_key);
    let name = normalize_provider(provider);
    let used = normalize_model(name.as_str(), model);
    if same_text(name.as_str(), "gemini") {
        return Ok(KeyCheck::Gemini { endpoint: gemini_endpoint(used.as_str(), key.as_str()) });
    }
    let mut authorization = "Bearer ".to_string();
    authorization.append(key.as_str());
    Ok(KeyCheck::Chat { endpoint: chat_endpoint(name.as_str()), authorization, model: used })
}

/// What the answer to the check of a key says: the key holds where the status is
/// one of success, and is refused with status and body where not.
pub fn judge_key_check(success: bool, status: &str, body: &str) -> (r: Result<bool, String>)
    ensures
        match r {
            Ok(valid) => success && valid,
            Err(error) => !success && error@ == "Inválida / Error: "@ + status@ + " - "@ + body@,
        },
{
    if success {
        return Ok(true);
    }
    let mut text = "Inválida / Error: ".to_string();
    text.append(status);
    text.append(" - ");
    text.append(body);
    Err(text)
}

// ---------------------------------------------------------------------------
// Errors on the way
// ---------------------------------------------------------------------------
/// What goes wrong between sending a request and reading its answer.
pub enum Mishap<'a> {
    /// The request could not be sent.
    Network(&'a str),
    /// The body could not be received.
    Body(&'a str),
    /// The stream broke off.
    Stream(&'a str),
    /// A chat provider refused a request.
    Refused { provider: &'a str, status: &'a str, body: &'a str },
    /// A chat provider refused a strict request.
    StrictlyRefused { provider: &'a str, status: &'a str, body: &'a str },
    /// Gemini refused a request.
    GeminiRefused { status: &'a str, body: &'a str },
    /// An answer of Gemini could not be read.
    GeminiUnreadable(&'a str),
}

/// The error that a mishap is reported as.
pub open spec fn mishap_text(mishap: Mishap) -> Seq<char> {
    match mishap {
        Mishap::Network(detail) => "Error de red: "@ + detail@,
        Mishap::Body(detail) => "DEEPSEEK_RESPONSE_BODY_DECODE_ERROR: "@ + detail@,
        Mishap::Stream(detail) => "Error leyendo stream: "@ + detail@,
        Mishap::Refused { provider, status, body } => "Error del proveedor "@ + provider@ + " ("@
            + status@ + "): "@ + body@,
        Mishap::StrictlyRefused { provider, status, body } => "Error de "@ + provider@ + " ("@
            + status@ + "): "@ + body@,
        Mishap::GeminiRefused { status, body } => "Error de Gemini ("@ + status@ + "): "@ + body@,
        Mishap::GeminiUnreadable(detail) => "Respuesta invalida de Gemini: "@ + detail@,
    }
}

fn concat(a: &str, b: &str, c: &str, d: &str) -> (r: String)
    ensures
        r@ == a@ + b@ + c@ + d@,
{
    let mut out = a.to_string();
    out.append(b);
    out.append(c);
    out.append(d);
    out
}

/// The error that a mishap is reported as.
pub fn report_mishap(mishap: &Mishap) -> (r: String)
    ensures
        r@ == mishap_text(*mishap),
{
    match mishap {
        Mishap::Network(detail) => {
            let mut out = "Error de red: ".to_string();
            out.append(detail);
            out
        },
        Mishap::Body(detail) => {
            let mut out = "DEEPSEEK_RESPONSE_BODY_DECODE_ERROR: ".to_string();
            out.append(detail);
            out
        },
        Mishap::Stream(detail) => {
            let mut out = "Error leyendo stream: ".to_string();
            out.append(detail);
            out
        },
        Mishap::Refused { provider, status, body } => {
            let mut out = concat("Error del proveedor ", provider, " (", status);
            out.append("): ");
            out.append(body);
            out
        },
        Mishap::StrictlyRefused { provider, status, body } => {
            let mut out = concat("Error de ", provider, " (", status);
            out.append("): ");
            out.append(body);
            out
        },
        Mishap::GeminiRefused { status, body } => concat("Error de Gemini (", status, "): ", body),
        Mishap::GeminiUnreadable(detail) => {
            let mut out = "Respuesta invalida de Gemini: ".to_string();
            out.append(detail);
            out
        },
    }
}

/// A request that could not be sent is worth sending again.
pub proof fn law_network_errors_are_worth_retrying(detail: &str)
    ensures
        crate::errors::speaks_of_transport(mishap_text(Mishap::Network(detail))),
        crate::errors::worth_retrying(mishap_text(Mishap::Network(detail))),
{
    reveal_strlit("Error de red: ");
    reveal_strlit("error de red");
    let lower = crate::text::ascii_lower("Error de red: "@);
    assert(lower.subrange(0, 12) =~= "error de red"@);
    crate::text::lemma_lower_prefix("Error de red: "@, detail@, "error de red"@);
}

/// A body that could not be received fails the text at once, and is worth
/// sending the chapter again.
pub proof fn law_unreceived_bodies_fail_the_text_only(detail: &str)
    ensures
        crate::errors::speaks_of_permanent_failure(mishap_text(Mishap::Body(detail))),
        crate::errors::speaks_of_decoding(mishap_text(Mishap::Body(detail))),
{
    reveal_strlit("DEEPSEEK_RESPONSE_BODY_DECODE_ERROR: ");
    reveal_strlit("deepseek_response_body_decode_error");
    let front = "DEEPSEEK_RESPONSE_BODY_DECODE_ERROR: "@;
    let lower = crate::text::ascii_lower(front);
    assert(lower.len() == 37);
    assert(lower.subrange(0, 35) =~= "deepseek_response_body_decode_error"@);
    crate::text::lemma_lower_prefix(front, detail@, "deepseek_response_body_decode_error"@);
}

/// A body that is no JSON fails the text at once, and is worth sending the
/// chapter again.
pub proof fn law_unreadable_bodies_fail_the_text_only(error: Seq<char>, preview: Seq<char>)
    ensures
        crate::errors::speaks_of_permanent_failure(
            crate::response::unreadable_body(error, preview),
        ),
        crate::errors::speaks_of_decoding(crate::response::unreadable_body(error, preview)),
{
    reveal_strlit("Respuesta invalida de DeepSeek: ");
    reveal_strlit("respuesta invalida de deepseek");
    let front = "Respuesta invalida de DeepSeek: "@;
    let rest = error + " (preview="@ + preview + ")"@;
    let lower = crate::text::ascii_lower(front);
    assert(lower.len() == 32);
    assert(lower.subrange(0, 30) =~= "respuesta invalida de deepseek"@);
    crate::text::lemma_lower_prefix(front, rest, "respuesta invalida de deepseek"@);
    assert(crate::response::unreadable_body(error, preview) =~= front + rest);
}

/// A provider that fails on its side is worth asking again.
pub proof fn law_server_failures_are_worth_retrying(provider: &str, status: &str, body: &str)
    requires
        provider@ == "deepseek"@ || provider@ == "openai"@,
        status@.len() > 0,
        status@[0] == '5',
    ensures
        crate::errors::worth_retrying(mishap_text(Mishap::Refused { provider, status, body })),
        crate::errors::worth_retrying(
            mishap_text(Mishap::StrictlyRefused { provider, status, body }),
        ),
        crate::errors::worth_retrying(mishap_text(Mishap::GeminiRefused { status, body })),
{
    let rest = "): "@ + body@;
    let refused = "Error del proveedor "@ + provider@ + " ("@;
    let strictly = "Error de "@ + provider@ + " ("@;
    let gemini = "Error de Gemini ("@;
    lemma_refused_parts(provider, status, body);
    if provider@ == "deepseek"@ {
        lemma_deepseek_fronts();
        lemma_server_failure(refused, status@, rest, "error del proveedor deepseek (5"@);
        lemma_server_failure(strictly, status@, rest, "error de deepseek (5"@);
    } else {
        lemma_openai_fronts();
        lemma_server_failure(refused, status@, rest, "error del proveedor openai (5"@);
        lemma_server_failure(strictly, status@, rest, "error de openai (5"@);
    }
    lemma_gemini_front();
    lemma_server_failure(gemini, status@, rest, "error de gemini (5"@);
}

/// In lower case and with a five behind it, a text is another.
spec fn is_front(front: Seq<char>, part: Seq<char>) -> bool {
    &&& front.len() + 1 == part.len()
    &&& part.last() == '5'
    &&& forall|i: int|
        0 <= i < front.len() ==> crate::text::ascii_lower_char(#[trigger] front[i]) == part[i]
}

proof fn lemma_server_failure(
    front: Seq<char>,
    status: Seq<char>,
    rest: Seq<char>,
    part: Seq<char>,
)
    requires
        is_front(front, part),
        status.len() > 0,
        status[0] == '5',
    ensures
        crate::text::has_part(crate::text::ascii_lower(front + status + rest), part),
{
    let lower = crate::text::ascii_lower(front + status + rest);
    assert(lower.subrange(0, part.len() as int) =~= part);
    assert(crate::text::occurs_at(lower, part, 0));
}

proof fn lemma_deepseek_fronts()
    ensures
        is_front(
            "Error del proveedor "@ + "deepseek"@ + " ("@,
            "error del proveedor deepseek (5"@,
        ),
        is_front("Error de "@ + "deepseek"@ + " ("@, "error de deepseek (5"@),
{
    reveal_strlit("deepseek");
    reveal_strlit("Error del proveedor ");
    reveal_strlit("Error de ");
    reveal_strlit(" (");
    reveal_strlit("error del proveedor deepseek (5");
    reveal_strlit("error de deepseek (5");
}

proof fn lemma_openai_fronts()
    ensures
        is_front("Error del proveedor "@ + "openai"@ + " ("@, "error del proveedor openai (5"@),
        is_front("Error de "@ + "openai"@ + " ("@, "error de openai (5"@),
{
    reveal_strlit("openai");
    reveal_strlit("Error del proveedor ");
    reveal_strlit("Error de ");
    reveal_strlit(" (");
    reveal_strlit("error del proveedor openai (5");
    reveal_strlit("error de openai (5");
}

proof fn lemma_gemini_front()
    ensures
        is_front("Error de Gemini ("@, "error de gemini (5"@),
{
    reveal_strlit("Error de Gemini (");
    reveal_strlit("error de gemini (5");
}

/// A provider that asks for patience is worth asking again.
pub proof fn law_rate_limits_are_worth_retrying(provider: &str, status: &str, body: &str)
    requires
        crate::text::has_prefix(status@, "429"@),
    ensures
        crate::errors::speaks_of_rate_limit(
            mishap_text(Mishap::Refused { provider, status, body }),
        ),
        crate::errors::speaks_of_rate_limit(
            mishap_text(Mishap::StrictlyRefused { provider, status, body }),
        ),
        crate::errors::speaks_of_rate_limit(mishap_text(Mishap::GeminiRefused { status, body })),
{
    lemma_refused_parts(provider, status, body);
    lemma_429_inside("Error del proveedor "@ + provider@ + " ("@, status@, "): "@ + body@);
    lemma_429_inside("Error de "@ + provider@ + " ("@, status@, "): "@ + body@);
    lemma_429_inside("Error de Gemini ("@, status@, "): "@ + body@);
}

/// Refusals hold a status between what stands in front of it and behind it.
#[verifier::spinoff_prover]
proof fn lemma_refused_parts(provider: &str, status: &str, body: &str)
    ensures
        mishap_text(Mishap::Refused { provider, status, body }) == ("Error del proveedor "@
            + provider@ + " ("@) + status@ + ("): "@ + body@),
        mishap_text(Mishap::StrictlyRefused { provider, status, body }) == ("Error de "@ + provider@
            + " ("@) + status@ + ("): "@ + body@),
        mishap_text(Mishap::GeminiRefused { status, body }) == "Error de Gemini ("@ + status@ + (
        "): "@ + body@),
{
    lemma_regroup("Error del proveedor "@ + provider@ + " ("@ + status@, "): "@, body@);
    lemma_regroup("Error de "@ + provider@ + " ("@ + status@, "): "@, body@);
    lemma_regroup("Error de Gemini ("@ + status@, "): "@, body@);
}

proof fn lemma_regroup(a: Seq<char>, b: Seq<char>, c: Seq<char>)
    ensures
        a + b + c == a + (b + c),
{
    assert(a + b + c =~= a + (b + c));
}

#[verifier::spinoff_prover]
proof fn lemma_429_inside(front: Seq<char>, status: Seq<char>, rest: Seq<char>)
    requires
        crate::text::has_prefix(status, "429"@),
    ensures
        crate::errors::speaks_of_rate_limit(front + status + rest),
{
    reveal_strlit("429");
    let lower = crate::text::ascii_lower(front + status + rest);
    let n = front.len() as int;
    assert(status[0] == status.subrange(0, 3)[0]);
    assert(status[1] == status.subrange(0, 3)[1]);
    assert(status[2] == status.subrange(0, 3)[2]);
    assert(lower.subrange(n, n + 3) =~= "429"@);
    assert(crate::text::occurs_at(lower, "429"@, n));
}

// ---------------------------------------------------------------------------
// What is promised of requests
// ---------------------------------------------------------------------------
/// A provider is told by its name, in capitals or not and with white space
/// around it; every other name stands for DeepSeek.
pub proof fn law_providers_are_told_by_their_names(
    front: Seq<char>,
    name: Seq<char>,
    back: Seq<char>,
)
    requires
        forall|i: int| 0 <= i < front.len() ==> crate::text::is_white_space(#[trigger] front[i]),
        forall|i: int| 0 <= i < back.len() ==> crate::text::is_white_space(#[trigger] back[i]),
        name.len() > 0,
        !crate::text::is_white_space(name[0]),
        !crate::text::is_white_space(name.last()),
    ensures
        ({
            let lower = crate::text::ascii_lower(name);
            let provider = provider_named(front + name + back);
            &&& lower == "openai"@ ==> provider == "openai"@
            &&& lower == "gemini"@ ==> provider == "gemini"@
            &&& lower != "openai"@ && lower != "gemini"@ ==> provider == "deepseek"@
        }),
{
    crate::text::law_trimming_takes_white_space_alone(front, name, back);
    lemma_providers_differ();
}

proof fn lemma_providers_differ()
    ensures
        "openai"@ != "gemini"@,
        "openai"@ != "deepseek"@,
        "gemini"@ != "deepseek"@,
{
    reveal_strlit("openai");
    reveal_strlit("gemini");
    reveal_strlit("deepseek");
    assert("openai"@[0] == 'o');
    assert("gemini"@[0] == 'g');
    assert("deepseek"@[0] == 'd');
}

/// OpenAI and Gemini have one model each; DeepSeek has two, of which the smaller
/// one is used where it is asked for and the larger one in every other case.
pub proof fn law_models_belong_to_their_providers(provider: Seq<char>, requested: Seq<char>)
    ensures
        model_of("openai"@, requested) == "gpt-5.4-nano"@,
        model_of("gemini"@, requested) == "gemini-3.1-flash-lite-preview"@,
        provider != "openai"@ && provider != "gemini"@ && crate::text::trimmed(requested)
            == "deepseek-v4-flash"@ ==> model_of(provider, requested) == "deepseek-v4-flash"@,
        provider != "openai"@ && provider != "gemini"@ && crate::text::trimmed(requested)
            != "deepseek-v4-flash"@ ==> model_of(provider, requested) == "deepseek-v4-pro"@,
{
    lemma_providers_differ();
}

/// Both chat providers have an address of their own.
proof fn lemma_addresses()
    ensures
        crate::text::has_prefix(
            "https://api.openai.com/v1/chat/completions"@,
            "https://api.openai.com/"@,
        ),
        crate::text::has_prefix(
            "https://api.deepseek.com/chat/completions"@,
            "https://api.deepseek.com/"@,
        ),
        !crate::text::has_prefix(
            "https://api.openai.com/v1/chat/completions"@,
            "https://api.deepseek.com/"@,
        ),
        !crate::text::has_prefix(
            "https://api.deepseek.com/chat/completions"@,
            "https://api.openai.com/"@,
        ),
{
    reveal_strlit("https://api.openai.com/v1/chat/completions");
    reveal_strlit("https://api.openai.com/");
    reveal_strlit("https://api.deepseek.com/chat/completions");
    reveal_strlit("https://api.deepseek.com/");
    let (a, b) = (
        "https://api.openai.com/v1/chat/completions"@,
        "https://api.deepseek.com/chat/completions"@,
    );
    assert(a.subrange(0, 23) =~= "https://api.openai.com/"@);
    assert(b.subrange(0, 25) =~= "https://api.deepseek.com/"@);
    assert(a.subrange(0, 25)[12] == 'o');
    assert("https://api.deepseek.com/"@[12] == 'd');
    assert(b.subrange(0, 23)[12] == 'd');
    assert("https://api.openai.com/"@[12] == 'o');
}

/// A request goes to the provider that was chosen and to no other: one for
/// OpenAI to an address under `https://api.openai.com/`, one for DeepSeek to one
/// under `https://api.deepseek.com/`, one for Gemini to one of Google; and it
/// asks for a model of that provider.
pub proof fn law_requests_go_to_the_chosen_provider(inquiry: Inquiry, prompt: Seq<char>)
    ensures
        ({
            let name = crate::text::ascii_lower(crate::text::trimmed(inquiry.provider@));
            match request_with(inquiry, prompt) {
                RequestSpec::Gemini { endpoint, .. } => {
                    &&& name == "gemini"@
                    &&& crate::text::has_prefix(
                        endpoint,
                        "https://generativelanguage.googleapis.com/v1beta/models/gemini-3.1-flash-lite-preview:generateContent?key="@,
                    )
                },
                RequestSpec::Chat { provider, endpoint, model, .. } => {
                    &&& name != "gemini"@
                    &&& crate::text::has_prefix(endpoint, "https://api.openai.com/"@) <==> name
                        == "openai"@
                    &&& crate::text::has_prefix(endpoint, "https://api.deepseek.com/"@) <==> name
                        != "openai"@
                    &&& name == "openai"@ ==> {
                        &&& endpoint == "https://api.openai.com/v1/chat/completions"@
                        &&& provider == "openai"@
                        &&& model == "gpt-5.4-nano"@
                    }
                    &&& name != "openai"@ ==> {
                        &&& endpoint == "https://api.deepseek.com/chat/completions"@
                        &&& provider == "deepseek"@
                        &&& model == "deepseek-v4-pro"@ || model == "deepseek-v4-flash"@
                    }
                },
            }
        }),
{
    lemma_providers_differ();
    lemma_addresses();
    if provider_named(inquiry.provider@) == "gemini"@ {
        lemma_gemini_address(crate::text::trimmed(inquiry.api_key@));
    }
}

proof fn lemma_gemini_address(key: Seq<char>)
    ensures
        crate::text::has_prefix(
            gemini_address(GEMINI_MODEL@, key),
            "https://generativelanguage.googleapis.com/v1beta/models/gemini-3.1-flash-lite-preview:generateContent?key="@,
        ),
{
    reveal_strlit(
        "https://generativelanguage.googleapis.com/v1beta/models/gemini-3.1-flash-lite-preview:generateContent?key=",
    );
    reveal_strlit("https://generativelanguage.googleapis.com/v1beta/models/");
    reveal_strlit("gemini-3.1-flash-lite-preview");
    reveal_strlit(":generateContent?key=");
    let front =
        "https://generativelanguage.googleapis.com/v1beta/models/gemini-3.1-flash-lite-preview:generateContent?key="@;
    assert("https://generativelanguage.googleapis.com/v1beta/models/"@
        + "gemini-3.1-flash-lite-preview"@ + ":generateContent?key="@ =~= front);
    crate::text::law_what_stands_in_a_text_is_found(Seq::empty(), front, key);
}

/// An address of Gemini is made of the model and the key, and of nothing that is
/// not the same in every address.
pub proof fn law_gemini_is_addressed_by_model_and_key(model: Seq<char>, key: Seq<char>)
    ensures
        crate::text::has_prefix(
            gemini_address(model, key),
            "https://generativelanguage.googleapis.com/v1beta/models/"@ + model,
        ),
        crate::text::has_suffix(gemini_address(model, key), ":generateContent?key="@ + key),
        gemini_address(model, key).len()
            == "https://generativelanguage.googleapis.com/v1beta/models/"@.len() + model.len()
            + ":generateContent?key="@.len() + key.len(),
{
    lemma_four_parts(
        "https://generativelanguage.googleapis.com/v1beta/models/"@,
        model,
        ":generateContent?key="@,
        key,
    );
}

/// Two parts in front and two behind.
proof fn lemma_four_parts(a: Seq<char>, b: Seq<char>, c: Seq<char>, d: Seq<char>)
    ensures
        crate::text::has_prefix(a + b + c, a + b),
        crate::text::has_suffix(a + b + c, c),
        crate::text::has_prefix(a + b + c + d, a),
        crate::text::has_prefix(a + b + c + d, a + b),
        crate::text::has_suffix(a + b + c + d, c + d),
        crate::text::has_suffix(a + b + c + d, b + c + d),
        (a + b + c + d).len() == a.len() + b.len() + c.len() + d.len(),
{
    let whole = a + b + c + d;
    let three = a + b + c;
    let n = whole.len() as int;
    assert(three.subrange(0, (a + b).len() as int) =~= a + b);
    assert(three.subrange(three.len() - c.len(), three.len() as int) =~= c);
    assert(whole.subrange(0, a.len() as int) =~= a);
    assert(whole.subrange(0, (a + b).len() as int) =~= a + b);
    assert(whole.subrange(n - (c + d).len(), n) =~= c + d);
    assert(whole.subrange(n - (b + c + d).len(), n) =~= b + c + d);
}

/// Chat completions are asked for at the address of OpenAI for OpenAI, and at
/// that of DeepSeek for everyone else.
pub proof fn law_chat_addresses(provider: Seq<char>)
    ensures
        crate::text::has_prefix(chat_address(provider), "https://api.openai.com/"@) <==> provider
            == "openai"@,
        crate::text::has_prefix(chat_address(provider), "https://api.deepseek.com/"@) <==> provider
            != "openai"@,
        crate::text::has_suffix(chat_address(provider), "/chat/completions"@),
{
    lemma_addresses();
    reveal_strlit("https://api.openai.com/v1/chat/completions");
    reveal_strlit("https://api.deepseek.com/chat/completions");
    reveal_strlit("/chat/completions");
    assert("https://api.openai.com/v1/chat/completions"@.subrange(25, 42)
        =~= "/chat/completions"@);
    assert("https://api.deepseek.com/chat/completions"@.subrange(24, 41) =~= "/chat/completions"@);
}

/// A request carries the key without the white space around it, the whole text
/// and the whole prompt, and nothing of them is changed.
pub proof fn law_requests_carry_key_and_text(
    inquiry: Inquiry,
    prompt: Seq<char>,
    front: Seq<char>,
    key: Seq<char>,
    back: Seq<char>,
)
    requires
        inquiry.api_key@ == front + key + back,
        forall|i: int| 0 <= i < front.len() ==> crate::text::is_white_space(#[trigger] front[i]),
        forall|i: int| 0 <= i < back.len() ==> crate::text::is_white_space(#[trigger] back[i]),
        key.len() > 0,
        !crate::text::is_white_space(key[0]),
        !crate::text::is_white_space(key.last()),
    ensures
        match request_with(inquiry, prompt) {
            RequestSpec::Gemini { endpoint, prompt: whole } => {
                &&& crate::text::has_suffix(endpoint, "?key="@ + key)
                &&& crate::text::has_prefix(whole, prompt)
                &&& crate::text::has_suffix(whole, "\n\nTexto:\n"@ + inquiry.text@)
                &&& whole.len() == prompt.len() + "\n\nTexto:\n"@.len() + inquiry.text@.len()
            },
            RequestSpec::Chat { authorization, system_prompt: whole, max_tokens, .. } => {
                &&& authorization == "Bearer "@ + key
                &&& whole == prompt
                &&& max_tokens == output_tokens(
                    inquiry.text@.len(),
                    crate::options::setting_value(
                        crate::options::opt_view(inquiry.max_tokens_setting),
                    ),
                )
            },
        },
{
    crate::text::law_trimming_takes_white_space_alone(front, key, back);
    let model = model_of(provider_named(inquiry.provider@), inquiry.model@);
    reveal_strlit(":generateContent?key=");
    reveal_strlit("?key=");
    reveal_strlit(":generateContent");
    assert(":generateContent?key="@ =~= ":generateContent"@ + "?key="@);
    let address = "https://generativelanguage.googleapis.com/v1beta/models/"@ + model
        + ":generateContent"@;
    assert(gemini_address(model, key) =~= address + ("?key="@ + key));
    crate::text::law_what_stands_in_a_text_is_found(address, "?key="@ + key, Seq::empty());
    let text = "\n\nTexto:\n"@ + inquiry.text@;
    assert(prompt + "\n\nTexto:\n"@ + inquiry.text@ =~= prompt + text);
    crate::text::law_what_stands_in_a_text_is_found(prompt, text, Seq::empty());
    crate::text::law_what_stands_in_a_text_is_found(Seq::empty(), prompt, text);
}

/// A prompt asks for a translation into the language that was named, and lays
/// down the rules of translation behind it; the stricter one begins with the
/// same words and asks for that language alone.
pub proof fn law_prompts_name_the_language(language: Seq<char>)
    ensures
        crate::text::has_prefix(
            system_prompt(language),
            "Eres un traductor literario profesional. Traduce al "@ + language,
        ),
        crate::text::has_suffix(
            system_prompt(language),
            " con calidad editorial y naturalidad, como una traduccion humana cuidada. Reglas obligatorias: 1) No resumas ni omitas informacion. 2) No agregues explicaciones, notas ni encabezados. 3) Conserva el tono narrativo, estilo y matices. 4) Si aparecen etiquetas HTML/XML, no las modifiques ni las traduzcas. 5) Si aparecen entidades HTML (por ejemplo &amp;, &lt;, &gt;), conservaalas. 6) Respeta saltos de linea. Devuelve unicamente el texto traducido."@,
        ),
        crate::text::has_prefix(strict_prompt(language), system_prompt(language)),
        crate::text::has_suffix(
            strict_prompt(language),
            " IMPORTANTE: Responde SOLO en "@ + language
                + ". NO uses chino simplificado ni tradicional. Si no sabes un termino, transliteralo o dejalo en el idioma original, pero nunca chino."@,
        ),
{
    let none = Seq::<char>::empty();
    lemma_four_parts(
        "Eres un traductor literario profesional. Traduce al "@,
        language,
        " con calidad editorial y naturalidad, como una traduccion humana cuidada. Reglas obligatorias: 1) No resumas ni omitas informacion. 2) No agregues explicaciones, notas ni encabezados. 3) Conserva el tono narrativo, estilo y matices. 4) Si aparecen etiquetas HTML/XML, no las modifiques ni las traduzcas. 5) Si aparecen entidades HTML (por ejemplo &amp;, &lt;, &gt;), conservaalas. 6) Respeta saltos de linea. Devuelve unicamente el texto traducido."@,
        none,
    );
    lemma_four_parts(
        system_prompt(language),
        " IMPORTANTE: Responde SOLO en "@,
        language,
        ". NO uses chino simplificado ni tradicional. Si no sabes un termino, transliteralo o dejalo en el idioma original, pero nunca chino."@,
    );
}

/// An answer may have seven tokens for every twenty characters of the text and
/// 256 more, within 512 and 8 192; a setting counts as it is, within 512 and
/// 12 288.
pub proof fn law_answers_may_be_as_long_as_the_text_needs(len: nat, n: nat)
    ensures
        512 <= output_tokens(len, None) <= 8_192,
        len < 732 ==> output_tokens(len, None) == 512,
        732 <= len <= 22_674 ==> 20 * (output_tokens(len, None) - 256) <= 7 * len < 20 * (
        output_tokens(len, None) - 255),
        len > 22_674 ==> output_tokens(len, None) == 8_192,
        512 <= n <= 12_288 ==> output_tokens(len, Some(n)) == n,
        n < 512 ==> output_tokens(len, Some(n)) == 512,
        n > 12_288 ==> output_tokens(len, Some(n)) == 12_288,
{
}

/// A text is refused before it is sent exactly where nothing but white space is
/// in it.
pub proof fn law_blank_texts_are_not_sent(text: Seq<char>)
    ensures
        text_fault(text) is Some <==> crate::text::trimmed(text).len() == 0,
        text_fault(text) is Some ==> text_fault(text) == Some("El texto a traducir esta vacio"@),
{
    crate::text::lemma_trimmed_empty(text);
}

/// An error says what went wrong and gives the details as they came, at its end.
pub proof fn law_errors_give_the_details(detail: &str, provider: &str, status: &str)
    ensures
        mishap_text(Mishap::Network(detail)) == "Error de red: "@ + detail@,
        mishap_text(Mishap::Body(detail)) == "DEEPSEEK_RESPONSE_BODY_DECODE_ERROR: "@ + detail@,
        mishap_text(Mishap::Stream(detail)) == "Error leyendo stream: "@ + detail@,
        mishap_text(Mishap::GeminiUnreadable(detail)) == "Respuesta invalida de Gemini: "@
            + detail@,
        mishap_text(Mishap::Refused { provider, status, body: detail })
            == "Error del proveedor "@ + provider@ + " ("@ + status@ + "): "@ + detail@,
        mishap_text(Mishap::StrictlyRefused { provider, status, body: detail }) == "Error de "@
            + provider@ + " ("@ + status@ + "): "@ + detail@,
        mishap_text(Mishap::GeminiRefused { status, body: detail }) == "Error de Gemini ("@
            + status@ + "): "@ + detail@,
{
}

/// Requests stand for what they hold.
pub proof fn law_requests_stand_for_what_they_hold(plan: RequestPlan)
    ensures
        match plan {
            RequestPlan::Gemini { endpoint, prompt } => plan@ == (RequestSpec::Gemini {
                endpoint: endpoint@,
                prompt: prompt@,
            }),
            RequestPlan::Chat {
                provider,
                endpoint,
                authorization,
                model,
                max_tokens,
                system_prompt,
            } => plan@ == (RequestSpec::Chat {
                provider: provider@,
                endpoint: endpoint@,
                authorization: authorization@,
                model: model@,
                max_tokens: max_tokens as int,
                system_prompt: system_prompt@,
            }),
        },
{
}

} // verus!
