//! Text to token ids: byte-level BPE with the model's special tokens.

use crate::error::{ErrorView, TtsError};
use serde_json::Value;
use tokenizers::models::bpe::{Vocab, BPE};
use tokenizers::normalizers::unicode::NFC;
use tokenizers::pre_tokenizers::byte_level::ByteLevel;
use tokenizers::pre_tokenizers::sequence::Sequence;
use tokenizers::pre_tokenizers::split::{Split, SplitPattern};
use tokenizers::{AddedToken, SplitDelimiterBehavior, Tokenizer};
use vstd::prelude::*;

verus! {

/// A JSON value. An object's entries stand in the order of its keys, each key
/// once.
pub enum Json {
    Null,
    Bool(bool),
    Number,
    Text(Seq<char>),
    Array(Seq<Json>),
    Object(Seq<(Seq<char>, Json)>),
}

/// The entry of a key.
pub open spec fn entry_of(entries: Seq<(Seq<char>, Json)>, key: Seq<char>) -> Option<Json>
    decreases entries.len(),
{
    if entries.len() == 0 {
        None
    } else if entries[0].0 == key {
        Some(entries[0].1)
    } else {
        entry_of(entries.drop_first(), key)
    }
}

/// The value behind a key; nothing where it is no object or has no such key.
pub open spec fn member(json: Json, key: Seq<char>) -> Option<Json> {
    match json {
        Json::Object(entries) => entry_of(entries, key),
        _ => None,
    }
}

/// A JSON value of `serde_json`, opaque here.
#[verifier::external_type_specification]
#[verifier::external_body]
pub struct ExValue(serde_json::Value);

/// What a JSON value holds.
pub uninterp spec fn json_of(v: Value) -> Json;

/// What a JSON text stands for, or why it cannot be read.
pub uninterp spec fn json_parsed(text: Seq<char>) -> Result<Json, Seq<char>>;

/// `serde_json::from_str` into a `Value`: the value that the text stands for,
/// or a description of what is wrong with it.
#[verifier::external_body]
fn parse_json(text: &str) -> (r: Result<Value, String>)
    ensures
        match r {
            Ok(v) => json_parsed(text@) == Ok::<Json, Seq<char>>(json_of(v)),
            Err(e) => json_parsed(text@) == Err::<Json, Seq<char>>(e@),
        },
{
    serde_json::from_str(text).map_err(|e: serde_json::Error| e.to_string())
}

/// `Value::get` with a key: the value behind the key of an object, nothing for
/// any other kind of value.
#[verifier::external_body]
fn json_get<'a>(v: &'a Value, key: &str) -> (r: Option<&'a Value>)
    ensures
        match r {
            Some(m) => member(json_of(*v), key@) == Some(json_of(*m)),
            None => member(json_of(*v), key@) is None,
        },
{
    v.get(key)
}

/// `Value::as_object` and `Map::values`: an object's values in the order of
/// its keys, nothing for any other kind of value.
#[verifier::external_body]
fn json_values<'a>(v: &'a Value) -> (r: Option<Vec<&'a Value>>)
    ensures
        match r {
            Some(vs) => json_of(*v) matches Json::Object(entries) && entries.len() == vs.len()
                && forall|i: int|
                0 <= i < vs.len() ==> json_of(*(#[trigger] vs[i])) == entries[i].1,
            None => !(json_of(*v) is Object),
        },
{
    v.as_object().map(|m| m.values().collect())
}

/// `Value::as_str`: the text of a JSON string, nothing for any other kind of
/// value.
#[verifier::external_body]
fn json_str<'a>(v: &'a Value) -> (r: Option<&'a str>)
    ensures
        match r {
            Some(s) => json_of(*v) == Json::Text(s@),
            None => !(json_of(*v) is Text),
        },
{
    v.as_str()
}

/// `Value::as_bool`: a JSON truth value, nothing for any other kind of value.
#[verifier::external_body]
fn json_bool(v: &Value) -> (r: Option<bool>)
    ensures
        match r {
            Some(b) => json_of(*v) == Json::Bool(b),
            None => !(json_of(*v) is Bool),
        },
{
    v.as_bool()
}

/// The text of a special token, if an entry of the decoder table describes one.
pub open spec fn special_of(info: Json) -> Option<Seq<char>> {
    match (member(info, "content"@), member(info, "special"@)) {
        (Some(Json::Text(content)), Some(Json::Bool(true))) => Some(content),
        _ => None,
    }
}

/// The special tokens among some entries, in order.
pub open spec fn specials_among(entries: Seq<(Seq<char>, Json)>) -> Seq<Seq<char>>
    decreases entries.len(),
{
    if entries.len() == 0 {
        Seq::empty()
    } else {
        let before = specials_among(entries.drop_last());
        match special_of(entries.last().1) {
            Some(content) => before.push(content),
            None => before,
        }
    }
}

/// The special tokens that a tokenizer configuration names.
pub open spec fn specials_in(config: Json) -> Seq<Seq<char>> {
    match member(config, "added_tokens_decoder"@) {
        Some(Json::Object(entries)) => specials_among(entries),
        _ => Seq::empty(),
    }
}

/// Texts as sequences of characters.
pub open spec fn texts_of(v: Seq<String>) -> Seq<Seq<char>> {
    v.map_values(|s: String| s@)
}

fn special_text(info: &Value) -> (r: Option<String>)
    ensures
        match r {
            Some(s) => special_of(json_of(*info)) == Some(s@),
            None => special_of(json_of(*info)) is None,
        },
{
    let content: &str = match json_get(info, "content") {
        Some(c) => match json_str(c) {
            Some(s) => s,
            None => {
                return None;
            },
        },
        None => {
            return None;
        },
    };
    let special: bool = match json_get(info, "special") {
        Some(b) => match json_bool(b) {
            Some(b) => b,
            None => false,
        },
        None => false,
    };
    if special {
        Some(content.to_string())
    } else {
        None
    }
}

/// The special tokens that a tokenizer configuration names: the entries of its
/// `added_tokens_decoder` that have a text and are marked special.
pub fn special_tokens(config: &Value) -> (r: Vec<String>)
    ensures
        texts_of(r@) == specials_in(json_of(*config)),
{
    let mut out: Vec<String> = Vec::new();
    assert(texts_of(out@) =~= Seq::empty());
    let table: &Value = match json_get(config, "added_tokens_decoder") {
        Some(t) => t,
        None => {
            return out;
        },
    };
    let infos: Vec<&Value> = match json_values(table) {
        Some(vs) => vs,
        None => {
            return out;
        },
    };
    let ghost entries: Seq<(Seq<char>, Json)> = json_of(*table)->Object_0;
    let mut i: usize = 0;
    assert(entries.take(0) =~= Seq::empty());
    while i < infos.len()
        invariant
            i <= infos.len(),
            entries.len() == infos.len(),
            forall|i: int|
                0 <= i < infos.len() ==> json_of(*(#[trigger] infos[i])) == entries[i].1,
            texts_of(out@) == specials_among(entries.take(i as int)),
        decreases infos.len() - i,
    {
        let ghost before: Seq<String> = out@;
        proof {
            let t = entries.take(i as int + 1);
            assert(t.drop_last() =~= entries.take(i as int));
            assert(t.last() == entries[i as int]);
        }
        match special_text(infos[i]) {
            Some(s) => {
                out.push(s);
                assert(texts_of(out@) =~= texts_of(before).push(s@));
            },
            None => {},
        }
        i = i + 1;
    }
    assert(entries.take(i as int) =~= entries);
    out
}

/// The pattern that a text is cut by before it is tokenised.
pub const PRETOKENIZE_REGEX: &'static str =
    "(?i:'s|'t|'re|'ve|'m|'ll|'d)|[^\\r\\n\\p{L}\\p{N}]?\\p{L}+|\\p{N}| ?[^\\s\\p{L}\\p{N}]+[\\r\\n]*|\\s*[\\r\\n]+|\\s+(?!\\S)|\\s+";

/// The token that stands for what the vocabulary has no token for.
pub const UNKNOWN_TOKEN: &'static str = "<|endoftext|>";

/// The vocabulary that a list of tokens and ids makes up; of two ids for one
/// token the later counts.
pub open spec fn vocab_of(pairs: Seq<(String, u32)>) -> Map<Seq<char>, u32>
    decreases pairs.len(),
{
    if pairs.len() == 0 {
        Map::empty()
    } else {
        vocab_of(pairs.drop_last()).insert(pairs.last().0@, pairs.last().1)
    }
}

/// The merges, in the order of their rank.
pub open spec fn merges_of(pairs: Seq<(String, String)>) -> Seq<(Seq<char>, Seq<char>)> {
    pairs.map_values(|p: (String, String)| (p.0@, p.1@))
}

/// The switches of the cut into words and of the byte-level alphabet.
#[derive(Clone, Copy, PartialEq, Eq, Debug, Structural)]
pub struct CutFlags {
    /// What the pattern does not match is a match.
    pub invert: bool,
    /// A space is put before the text.
    pub prefix_space: bool,
    /// Offsets leave out white space.
    pub trim_offsets: bool,
    /// The alphabet cuts by a pattern of its own, too.
    pub own_pattern: bool,
}

/// The model's switches: all off.
pub open spec fn no_flags() -> CutFlags {
    CutFlags { invert: false, prefix_space: false, trim_offsets: false, own_pattern: false }
}

/// A byte-level BPE tokenizer: what its ids depend on. The special tokens are
/// those of a single list, added at once.
#[verifier::ext_equal]
pub struct TokenizerView {
    pub vocab: Map<Seq<char>, u32>,
    pub merges: Seq<(Seq<char>, Seq<char>)>,
    pub unknown: Seq<char>,
    /// Text is brought to NFC first.
    pub composed: bool,
    /// The pattern that text is cut by.
    pub pattern: Seq<char>,
    /// Every match of the pattern is a word of its own.
    pub isolated: bool,
    pub flags: CutFlags,
    pub specials: Seq<Seq<char>>,
}

/// A BPE model of `tokenizers`, opaque here.
#[verifier::external_type_specification]
#[verifier::external_body]
pub struct ExBpe(tokenizers::models::bpe::BPE);

/// A tokenizer of `tokenizers`, opaque here.
#[verifier::external_type_specification]
#[verifier::external_body]
pub struct ExTokenizer(tokenizers::Tokenizer);

/// What a BPE model was built from: vocabulary, merges, unknown token.
pub uninterp spec fn bpe_parts(m: BPE) -> (
    Map<Seq<char>, u32>,
    Seq<(Seq<char>, Seq<char>)>,
    Seq<char>,
);

/// What a tokenizer's ids depend on.
pub uninterp spec fn tokenizer_parts(t: Tokenizer) -> TokenizerView;

/// Whether a BPE model can be built, and what is said where it cannot.
pub uninterp spec fn bpe_refusal(
    vocab: Map<Seq<char>, u32>,
    merges: Seq<(Seq<char>, Seq<char>)>,
) -> Option<Seq<char>>;

/// What is said of a pattern that is no regular expression.
pub uninterp spec fn pattern_refusal(pattern: Seq<char>) -> Option<Seq<char>>;

/// The ids of a text, or why it has none.
pub uninterp spec fn text_ids(t: TokenizerView, text: Seq<char>) -> Result<Seq<u32>, Seq<char>>;

/// `BpeBuilder` with a vocabulary, merges and an unknown token, without byte
/// fallback: a model of those parts, or a description of what does not fit. It
/// fits exactly where both sides of every merge and their concatenation are in
/// the vocabulary.
#[verifier::external_body]
fn build_bpe(vocab: Vec<(String, u32)>, merges: Vec<(String, String)>, unknown: &str) -> (r: Result<
    BPE,
    String,
>)
    ensures
        match r {
            Ok(m) => bpe_parts(m) == (vocab_of(vocab@), merges_of(merges@), unknown@)
                && bpe_refusal(vocab_of(vocab@), merges_of(merges@)) is None,
            Err(e) => bpe_refusal(vocab_of(vocab@), merges_of(merges@)) == Some(e@),
        },
        r is Ok <==> forall|i: int|
            0 <= i < merges.len() ==> {
                let (a, b) = #[trigger] merges_of(merges@)[i];
                let v = vocab_of(vocab@);
                v.contains_key(a) && v.contains_key(b) && v.contains_key(a + b)
            },
{
    let vocab: Vocab = vocab.into_iter().collect();
    BPE::builder()
        .vocab_and_merges(vocab, merges)
        .unk_token(unknown.to_string())
        .byte_fallback(false)
        .build()
        .map_err(|e| e.to_string())
}

/// `Tokenizer::new` around a model, with NFC normalisation, an isolating
/// `Split` by a regular expression and a byte-level alphabet, both with the
/// switches given: a tokenizer without special tokens, or a description of what
/// is wrong with the pattern.
#[verifier::external_body]
fn assemble(model: BPE, pattern: &str, flags: CutFlags) -> (r: Result<Tokenizer, String>)
    ensures
        match r {
            Ok(t) => pattern_refusal(pattern@) is None && tokenizer_parts(t) == (TokenizerView {
                vocab: bpe_parts(model).0,
                merges: bpe_parts(model).1,
                unknown: bpe_parts(model).2,
                composed: true,
                pattern: pattern@,
                isolated: true,
                flags,
                specials: Seq::empty(),
            }),
            Err(e) => pattern_refusal(pattern@) == Some(e@),
        },
{
    let mut t = Tokenizer::new(model);
    t.with_normalizer(Some(NFC));
    let regex = SplitPattern::Regex(pattern.to_string());
    let split = Split::new(regex, SplitDelimiterBehavior::Isolated, flags.invert)
        .map_err(|e| e.to_string())?;
    let bytes = ByteLevel::new(flags.prefix_space, flags.trim_offsets, flags.own_pattern);
    t.with_pre_tokenizer(Some(Sequence::new(vec![split.into(), bytes.into()])));
    t.with_post_processor(Some(bytes));
    t.with_decoder(Some(bytes));
    Ok(t)
}

/// `Tokenizer::get_vocab_size` without added tokens: how many tokens the model's
/// vocabulary has.
#[verifier::external_body]
fn vocab_size(t: &Tokenizer) -> (r: usize)
    ensures
        r == tokenizer_parts(*t).vocab.len(),
{
    t.get_vocab_size(false)
}

/// `Tokenizer::add_special_tokens` on a tokenizer that has none yet: the tokens
/// are special from now on, in the order given. One that the vocabulary lacks
/// gets the next id from the vocabulary's size on, and the ids have 32 bits. A
/// second list would be numbered from elsewhere, so there is none.
#[verifier::external_body]
fn add_specials(t: &mut Tokenizer, tokens: Vec<String>)
    requires
        tokenizer_parts(*old(t)).specials.len() == 0,
        tokenizer_parts(*old(t)).vocab.len() + tokens.len() <= u32::MAX,
    ensures
        tokenizer_parts(*final(t)) == (TokenizerView {
            specials: texts_of(tokens@),
            ..tokenizer_parts(*old(t))
        }),
{
    let added: Vec<AddedToken> = tokens.into_iter().map(|c| AddedToken::from(c, true)).collect();
    t.add_special_tokens(&added);
}

/// `Tokenizer::encode` without added markers, and `Encoding::get_ids`: the ids
/// of the text, which depend on the tokenizer's parts and the text alone, or a
/// description of why there are none.
#[verifier::external_body]
fn encode_text(t: &Tokenizer, text: &str) -> (r: Result<Vec<u32>, String>)
    ensures
        match r {
            Ok(ids) => text_ids(tokenizer_parts(*t), text@) == Ok::<Seq<u32>, Seq<char>>(ids@),
            Err(e) => text_ids(tokenizer_parts(*t), text@) == Err::<Seq<u32>, Seq<char>>(e@),
        },
{
    t.encode(text, false).map(|e| e.get_ids().to_vec()).map_err(|e| e.to_string())
}

/// A failure to load the tokenizer, with the step it happened at.
pub open spec fn tokenizer_error(step: Seq<char>, detail: Seq<char>) -> ErrorView {
    ErrorView::Tokenizer(step + ": "@ + detail)
}

fn failed(step: &str, detail: String) -> (r: TtsError)
    ensures
        r@ == tokenizer_error(step@, detail@),
{
    TtsError::Tokenizer(step.to_string().concat(": ").concat(detail.as_str()))
}

/// The model's tokenizer.
pub struct TextTokenizer {
    inner: Tokenizer,
}

impl View for TextTokenizer {
    type V = TokenizerView;

    closed spec fn view(&self) -> TokenizerView {
        tokenizer_parts(self.inner)
    }
}

impl TextTokenizer {
    /// The tokenizer of a vocabulary and merges: byte-level BPE behind NFC and
    /// a split by [`PRETOKENIZE_REGEX`], without special tokens yet.
    pub fn from_vocab_and_merges(vocab: Vec<(String, u32)>, merges: Vec<(String, String)>) -> (r:
        Result<Self, TtsError>)
        ensures
            ({
                let (v, m) = (vocab_of(vocab@), merges_of(merges@));
                match r {
                    Ok(t) => bpe_refusal(v, m) is None && pattern_refusal(PRETOKENIZE_REGEX@) is None
                        && t@ == (TokenizerView {
                        vocab: v,
                        merges: m,
                        unknown: UNKNOWN_TOKEN@,
                        composed: true,
                        pattern: PRETOKENIZE_REGEX@,
                        isolated: true,
                        flags: no_flags(),
                        specials: Seq::empty(),
                    }),
                    Err(e) => match bpe_refusal(v, m) {
                        Some(detail) => e@ == tokenizer_error("bpe"@, detail),
                        None => pattern_refusal(PRETOKENIZE_REGEX@) matches Some(detail) && e@
                            == tokenizer_error("split"@, detail),
                    },
                }
            }),
    {
        let model: BPE = match build_bpe(vocab, merges, UNKNOWN_TOKEN) {
            Ok(m) => m,
            Err(e) => {
                return Err(failed("bpe", e));
            },
        };
        let flags: CutFlags = CutFlags {
            invert: false,
            prefix_space: false,
            trim_offsets: false,
            own_pattern: false,
        };
        match assemble(model, PRETOKENIZE_REGEX, flags) {
            Ok(inner) => Ok(TextTokenizer { inner }),
            Err(e) => Err(failed("split", e)),
        }
    }

    /// Adds the special tokens that the text of `tokenizer_config.json` names,
    /// to a tokenizer that has none yet. They are refused where their ids might
    /// not fit into 32 bits.
    pub fn add_config(&mut self, config: &str) -> (r: Result<(), TtsError>)
        requires
            old(self)@.specials.len() == 0,
        ensures
            match json_parsed(config@) {
                Ok(json) => if old(self)@.vocab.len() + specials_in(json).len() <= u32::MAX {
                    r is Ok && final(self)@ == (TokenizerView {
                        specials: specials_in(json),
                        ..old(self)@
                    })
                } else {
                    &&& final(self)@ == old(self)@
                    &&& r matches Err(e)
                    &&& e@ == tokenizer_error(
                        "tokenizer_config.json"@,
                        "too many special tokens"@,
                    )
                },
                Err(detail) => {
                    &&& final(self)@ == old(self)@
                    &&& r matches Err(e)
                    &&& e@ == tokenizer_error("tokenizer_config.json"@, detail)
                },
            },
    {
        match parse_json(config) {
            Ok(v) => {
                let tokens: Vec<String> = special_tokens(&v);
                assert(tokens@.len() == texts_of(tokens@).len());
                let total: u128 = vocab_size(&self.inner) as u128 + tokens.len() as u128;
                if total > u32::MAX as u128 {
                    return Err(
                        failed("tokenizer_config.json", "too many special tokens".to_string()),
                    );
                }
                add_specials(&mut self.inner, tokens);
                Ok(())
            },
            Err(e) => Err(failed("tokenizer_config.json", e)),
        }
    }

    /// The ids of a text.
    pub fn encode(&self, text: &str) -> (r: Result<Vec<u32>, TtsError>)
        ensures
            match text_ids(self@, text@) {
                Ok(ids) => r matches Ok(v) && v@ == ids,
                Err(detail) => r matches Err(e) && e@ == tokenizer_error("encode"@, detail),
            },
    {
        match encode_text(&self.inner, text) {
            Ok(ids) => Ok(ids),
            Err(e) => Err(failed("encode", e)),
        }
    }
}

/// An entry describes a special token exactly where it has a text and is marked
/// special, and that text is the token.
pub proof fn special_entries_are_marked(info: Json, text: Seq<char>)
    ensures
        special_of(info) == Some(text) <==> member(info, "content"@) == Some(Json::Text(text))
            && member(info, "special"@) == Some(Json::Bool(true)),
{
}

/// The special tokens of a configuration are those of all entries of its table
/// that describe one, each once, in the order of the entries.
pub proof fn specials_come_in_order(
    config: Json,
    entries: Seq<(Seq<char>, Json)>,
    more: (Seq<char>, Json),
)
    ensures
        member(config, "added_tokens_decoder"@) == Some(Json::Object(entries)) ==> specials_in(
            config,
        ) == specials_among(entries),
        !(member(config, "added_tokens_decoder"@) matches Some(Json::Object(_))) ==> specials_in(
            config,
        ).len() == 0,
        specials_among(Seq::empty()).len() == 0,
        specials_among(entries.push(more)) == match special_of(more.1) {
            Some(text) => specials_among(entries).push(text),
            None => specials_among(entries),
        },
{
    assert(entries.push(more).drop_last() =~= entries);
}

/// A token that stands in the list has an id, the last one that the list gives
/// it; a token that does not has none.
pub proof fn later_ids_count(pairs: Seq<(String, u32)>, k: int, token: Seq<char>)
    requires
        0 <= k < pairs.len(),
    ensures
        pairs[k].0@ == token && (forall|i: int|
            k < i < pairs.len() ==> (#[trigger] pairs[i]).0@ != token) ==> vocab_of(
            pairs,
        ).contains_key(token) && vocab_of(pairs)[token] == pairs[k].1,
        (forall|i: int| 0 <= i < pairs.len() ==> (#[trigger] pairs[i]).0@ != token) ==> !vocab_of(
            pairs,
        ).contains_key(token),
    decreases pairs.len(),
{
    let rest = pairs.drop_last();
    assert forall|i: int| 0 <= i < rest.len() implies #[trigger] rest[i] == pairs[i] by {}
    if pairs[k].0@ == token && (forall|i: int|
        k < i < pairs.len() ==> (#[trigger] pairs[i]).0@ != token) {
        if k < rest.len() {
            assert(pairs[pairs.len() - 1].0@ != token);
            assert forall|i: int| k < i < rest.len() implies (#[trigger] rest[i]).0@ != token by {
                assert(rest[i] == pairs[i]);
            }
            later_ids_count(rest, k, token);
        }
    }
    if forall|i: int| 0 <= i < pairs.len() ==> (#[trigger] pairs[i]).0@ != token {
        assert(pairs[pairs.len() - 1].0@ != token);
        assert forall|i: int| 0 <= i < rest.len() implies (#[trigger] rest[i]).0@ != token by {
            assert(rest[i] == pairs[i]);
        }
        if rest.len() > 0 {
            later_ids_count(rest, 0, token);
        }
    }
}

/// The merges keep their order and their two sides; the model's switches are all
/// off; a failure is told with the step it happened at.
pub proof fn tokenizers_are_built_from_their_parts(
    pairs: Seq<(String, String)>,
    i: int,
    step: Seq<char>,
    detail: Seq<char>,
)
    requires
        0 <= i < pairs.len(),
    ensures
        merges_of(pairs).len() == pairs.len(),
        merges_of(pairs)[i].0 == pairs[i].0@,
        merges_of(pairs)[i].1 == pairs[i].1@,
        !no_flags().invert && !no_flags().prefix_space && !no_flags().trim_offsets
            && !no_flags().own_pattern,
        tokenizer_error(step, detail) == ErrorView::Tokenizer(step + ": "@ + detail),
{
}

/// The pattern and the unknown token are the model's.
pub proof fn the_pattern_is_the_models()
    ensures
        PRETOKENIZE_REGEX@
            == "(?i:'s|'t|'re|'ve|'m|'ll|'d)|[^\\r\\n\\p{L}\\p{N}]?\\p{L}+|\\p{N}| ?[^\\s\\p{L}\\p{N}]+[\\r\\n]*|\\s*[\\r\\n]+|\\s+(?!\\S)|\\s+"@,
        UNKNOWN_TOKEN@ == "<|endoftext|>"@,
{
}

} // verus!
