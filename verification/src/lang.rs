//! Codec language tokens.
//!
//! The talker's prefill carries a language token, which the model uses to pick
//! the phonology it generates in. The ten ids below are `codec_language_id`
//! from the model's config.json.

use crate::text::{ascii_lower, same, trimmed};
use vstd::prelude::*;

verus! {

/// Opens a prefix that names a language.
pub const THINK: u32 = 2154;

/// Opens a prefix that leaves the language to the model.
pub const NOTHINK: u32 = 2155;

/// Opens the thinking span.
pub const THINK_BOS: u32 = 2156;

/// Closes the thinking span.
pub const THINK_EOS: u32 = 2157;

/// Languages the codec has a prefix token for, plus `Auto`, the official
/// default, which sends no language token and lets the model infer one from
/// the text.
#[derive(Clone, Copy, PartialEq, Eq, Debug, Structural)]
pub enum Language {
    Auto,
    Chinese,
    English,
    Japanese,
    Korean,
    German,
    French,
    Russian,
    Italian,
    Portuguese,
    Spanish,
}

/// The language a lower-case code or English name stands for.
pub open spec fn language_of(code: Seq<char>) -> Option<Language> {
    if code == "auto"@ {
        Some(Language::Auto)
    } else if code == "zh"@ || code == "chinese"@ {
        Some(Language::Chinese)
    } else if code == "en"@ || code == "english"@ {
        Some(Language::English)
    } else if code == "ja"@ || code == "japanese"@ {
        Some(Language::Japanese)
    } else if code == "ko"@ || code == "korean"@ {
        Some(Language::Korean)
    } else if code == "de"@ || code == "german"@ {
        Some(Language::German)
    } else if code == "fr"@ || code == "french"@ {
        Some(Language::French)
    } else if code == "ru"@ || code == "russian"@ {
        Some(Language::Russian)
    } else if code == "it"@ || code == "italian"@ {
        Some(Language::Italian)
    } else if code == "pt"@ || code == "portuguese"@ {
        Some(Language::Portuguese)
    } else if code == "es"@ || code == "spanish"@ {
        Some(Language::Spanish)
    } else {
        None
    }
}

/// A code as users may write it: white space around it and ASCII case are
/// ignored.
pub open spec fn normalized(s: Seq<char>) -> Seq<char> {
    trimmed(s).map_values(|c: char| ascii_lower(c))
}

/// The codec token of a language; `Auto` has none.
pub open spec fn token_of(l: Language) -> Option<u32> {
    match l {
        Language::Auto => None,
        Language::Chinese => Some(2055u32),
        Language::English => Some(2050u32),
        Language::Japanese => Some(2058u32),
        Language::Korean => Some(2064u32),
        Language::German => Some(2053u32),
        Language::French => Some(2061u32),
        Language::Russian => Some(2069u32),
        Language::Italian => Some(2070u32),
        Language::Portuguese => Some(2071u32),
        Language::Spanish => Some(2054u32),
    }
}

/// The tokens before the speaker slot.
pub open spec fn prefix_of(l: Language) -> Seq<u32> {
    match token_of(l) {
        Some(id) => seq![THINK, THINK_BOS, id, THINK_EOS],
        None => seq![NOTHINK, THINK_BOS, THINK_EOS],
    }
}

/// The short code of each language, in the order they are listed to users.
pub open spec fn code_list() -> Seq<&'static str> {
    seq!["auto", "zh", "en", "ja", "ko", "de", "fr", "ru", "it", "pt", "es"]
}

impl Default for Language {
    /// `Auto`.
    fn default() -> (r: Self)
        ensures
            r == Language::Auto,
    {
        Language::Auto
    }
}

impl Language {
    /// The codec language token; `None` for `Auto`.
    pub fn token_id(self) -> (r: Option<u32>)
        ensures
            r == token_of(self),
    {
        let id: u32 = match self {
            Language::Auto => return None,
            Language::Chinese => 2055,
            Language::English => 2050,
            Language::Japanese => 2058,
            Language::Korean => 2064,
            Language::German => 2053,
            Language::French => 2061,
            Language::Russian => 2069,
            Language::Italian => 2070,
            Language::Portuguese => 2071,
            Language::Spanish => 2054,
        };
        Some(id)
    }

    /// The codec prefix the talker's prefill starts with, before the speaker
    /// slot: think tokens around a language id, or the three-token "no think"
    /// prefix when the language is left to the model.
    pub fn codec_prefix(self) -> (r: Vec<u32>)
        ensures
            r@ == prefix_of(self),
    {
        match self.token_id() {
            Some(id) => vec![THINK, THINK_BOS, id, THINK_EOS],
            None => vec![NOTHINK, THINK_BOS, THINK_EOS],
        }
    }

    /// The codes `from_code` accepts, in the order they are listed to users.
    pub fn codes() -> (r: Vec<&'static str>)
        ensures
            r@ == code_list(),
    {
        vec!["auto", "zh", "en", "ja", "ko", "de", "fr", "ru", "it", "pt", "es"]
    }

    /// The language that a code or an English name stands for. White space
    /// around it and ASCII case do not matter.
    pub fn from_code(s: &str) -> (r: Option<Self>)
        ensures
            r == language_of(normalized(s@)),
    {
        let lower: String = s.trim().to_ascii_lowercase();
        let code: &str = lower.as_str();
        if same(code, "auto") {
            Some(Language::Auto)
        } else if same(code, "zh") || same(code, "chinese") {
            Some(Language::Chinese)
        } else if same(code, "en") || same(code, "english") {
            Some(Language::English)
        } else if same(code, "ja") || same(code, "japanese") {
            Some(Language::Japanese)
        } else if same(code, "ko") || same(code, "korean") {
            Some(Language::Korean)
        } else if same(code, "de") || same(code, "german") {
            Some(Language::German)
        } else if same(code, "fr") || same(code, "french") {
            Some(Language::French)
        } else if same(code, "ru") || same(code, "russian") {
            Some(Language::Russian)
        } else if same(code, "it") || same(code, "italian") {
            Some(Language::Italian)
        } else if same(code, "pt") || same(code, "portuguese") {
            Some(Language::Portuguese)
        } else if same(code, "es") || same(code, "spanish") {
            Some(Language::Spanish)
        } else {
            None
        }
    }
}

/// The number a code stands at in the list of codes.
pub open spec fn code_index(l: Language) -> int {
    match l {
        Language::Auto => 0,
        Language::Chinese => 1,
        Language::English => 2,
        Language::Japanese => 3,
        Language::Korean => 4,
        Language::German => 5,
        Language::French => 6,
        Language::Russian => 7,
        Language::Italian => 8,
        Language::Portuguese => 9,
        Language::Spanish => 10,
    }
}

/// Each language has a code in the list, and the code reads back as that
/// language: no two codes mean the same, and none is missing.
pub proof fn codes_name_every_language(l: Language)
    ensures
        0 <= code_index(l) < code_list().len(),
        language_of(code_list()[code_index(l)]@) == Some(l),
{
    reveal_strlit("auto");
    reveal_strlit("zh");
    reveal_strlit("en");
    reveal_strlit("ja");
    reveal_strlit("ko");
    reveal_strlit("de");
    reveal_strlit("fr");
    reveal_strlit("ru");
    reveal_strlit("it");
    reveal_strlit("pt");
    reveal_strlit("es");
    reveal_strlit("chinese");
    reveal_strlit("english");
    reveal_strlit("japanese");
    reveal_strlit("korean");
    reveal_strlit("german");
    reveal_strlit("french");
    reveal_strlit("russian");
    reveal_strlit("italian");
    reveal_strlit("portuguese");
    reveal_strlit("spanish");
    assert("zh"@[0] == 'z' && "zh"@[1] == 'h');
    assert("en"@[0] == 'e' && "en"@[1] == 'n');
    assert("ja"@[0] == 'j' && "ja"@[1] == 'a');
    assert("ko"@[0] == 'k' && "ko"@[1] == 'o');
    assert("de"@[0] == 'd' && "de"@[1] == 'e');
    assert("fr"@[0] == 'f' && "fr"@[1] == 'r');
    assert("ru"@[0] == 'r' && "ru"@[1] == 'u');
    assert("it"@[0] == 'i' && "it"@[1] == 't');
    assert("pt"@[0] == 'p' && "pt"@[1] == 't');
    assert("es"@[0] == 'e' && "es"@[1] == 's');
}

/// Every language but `Auto` has a token, no two have the same one, and all
/// lie in the codec vocabulary, behind the codes.
pub proof fn tokens_are_distinct_and_in_range(a: Language, b: Language)
    ensures
        token_of(a) is None <==> a == Language::Auto,
        token_of(a) is Some ==> 2048 <= token_of(a)->0 < 3072,
        token_of(a) == token_of(b) ==> a == b,
{
}

/// Every language can be named in English, too, and the name stands for what
/// its code stands for.
pub proof fn names_stand_for_their_codes()
    ensures
        language_of("chinese"@) == Some(Language::Chinese),
        language_of("english"@) == Some(Language::English),
        language_of("japanese"@) == Some(Language::Japanese),
        language_of("korean"@) == Some(Language::Korean),
        language_of("german"@) == Some(Language::German),
        language_of("french"@) == Some(Language::French),
        language_of("russian"@) == Some(Language::Russian),
        language_of("italian"@) == Some(Language::Italian),
        language_of("portuguese"@) == Some(Language::Portuguese),
        language_of("spanish"@) == Some(Language::Spanish),
{
    reveal_strlit("auto");
    reveal_strlit("zh");
    reveal_strlit("en");
    reveal_strlit("ja");
    reveal_strlit("ko");
    reveal_strlit("de");
    reveal_strlit("fr");
    reveal_strlit("ru");
    reveal_strlit("it");
    reveal_strlit("pt");
    reveal_strlit("es");
    reveal_strlit("chinese");
    reveal_strlit("english");
    reveal_strlit("japanese");
    reveal_strlit("korean");
    reveal_strlit("german");
    reveal_strlit("french");
    reveal_strlit("russian");
    reveal_strlit("italian");
    reveal_strlit("portuguese");
    reveal_strlit("spanish");
    assert("chinese"@[0] == 'c');
    assert("english"@[0] == 'e');
    assert("japanese"@[0] == 'j');
    assert("korean"@[0] == 'k');
    assert("german"@[0] == 'g');
    assert("french"@[0] == 'f');
    assert("russian"@[0] == 'r');
    assert("italian"@[0] == 'i');
    assert("portuguese"@[0] == 'p');
    assert("spanish"@[0] == 's');
}

/// The English name of a language.
pub open spec fn english_name(l: Language) -> Seq<char> {
    match l {
        Language::Auto => "auto"@,
        Language::Chinese => "chinese"@,
        Language::English => "english"@,
        Language::Japanese => "japanese"@,
        Language::Korean => "korean"@,
        Language::German => "german"@,
        Language::French => "french"@,
        Language::Russian => "russian"@,
        Language::Italian => "italian"@,
        Language::Portuguese => "portuguese"@,
        Language::Spanish => "spanish"@,
    }
}

/// Only a code of the list or an English name stands for a language, and only
/// for its own.
pub proof fn other_words_are_no_language(code: Seq<char>)
    ensures
        language_of(code) matches Some(l) ==> code == code_list()[code_index(l)]@ || code
            == english_name(l),
{
}

/// Neither the case of ASCII letters nor white space around it changes what a
/// code stands for.
pub proof fn case_and_space_do_not_matter(a: Seq<char>, b: Seq<char>)
    requires
        trimmed(a).len() == trimmed(b).len(),
        forall|i: int|
            0 <= i < trimmed(a).len() ==> ascii_lower(#[trigger] trimmed(a)[i]) == ascii_lower(
                trimmed(b)[i],
            ),
    ensures
        language_of(normalized(a)) == language_of(normalized(b)),
        normalized(a).len() == trimmed(a).len(),
        forall|i: int|
            0 <= i < trimmed(a).len() ==> {
                let c = #[trigger] trimmed(a)[i];
                let l = normalized(a)[i];
                if 'A' <= c <= 'Z' {
                    l as int == c as int + ('a' as int - 'A' as int)
                } else {
                    l == c
                }
            },
{
    assert(normalized(a) =~= normalized(b));
}

/// The codec prefix names the language between the tokens that open and close
/// the thinking; where none is named it opens with another token and holds
/// nothing in between. The tokens are those of the model's configuration.
pub proof fn prefixes_name_the_language(l: Language)
    ensures
        match token_of(l) {
            Some(id) => prefix_of(l) == seq![2154u32, 2156u32, id, 2157u32],
            None => prefix_of(l) == seq![2155u32, 2156u32, 2157u32],
        },
        token_of(Language::English) == Some(2050u32),
        token_of(Language::German) == Some(2053u32),
        token_of(Language::Spanish) == Some(2054u32),
        token_of(Language::Chinese) == Some(2055u32),
        token_of(Language::Japanese) == Some(2058u32),
        token_of(Language::French) == Some(2061u32),
        token_of(Language::Korean) == Some(2064u32),
        token_of(Language::Russian) == Some(2069u32),
        token_of(Language::Italian) == Some(2070u32),
        token_of(Language::Portuguese) == Some(2071u32),
{
}

} // verus!
