//! Translations: the interface languages, and the tables that map a text's
//! key to its translation in each language.
use vstd::prelude::*;
use crate::text::chars_of;

verus! {

/// An interface language.
#[derive(Clone, Copy, Debug, PartialEq, Eq, Structural)]
pub enum Language {
    ChineseSimplified,
    English,
}

/// The name of a language, written in that language.
pub open spec fn display_name_of(l: Language) -> Seq<char> {
    match l {
        Language::ChineseSimplified => seq!['简', '体', '中', '文'],
        Language::English => seq!['E', 'n', 'g', 'l', 'i', 's', 'h'],
    }
}

/// The key a language is stored under: `zh` or `en`.
pub open spec fn config_key_of(l: Language) -> Seq<char> {
    match l {
        Language::ChineseSimplified => seq!['z', 'h'],
        Language::English => seq!['e', 'n'],
    }
}

impl Language {
    /// The language's own name for itself, as the language menu shows it.
    pub fn display_name(&self) -> (r: &'static str)
        ensures
            r@ == display_name_of(*self),
    {
        proof {
            reveal_strlit("简体中文");
            reveal_strlit("English");
        }
        match self {
            Language::ChineseSimplified => "简体中文",
            Language::English => "English",
        }
    }

    /// The key the language's translations are stored under.
    pub fn config_key(&self) -> (r: &'static str)
        ensures
            r@ == config_key_of(*self),
    {
        proof {
            reveal_strlit("zh");
            reveal_strlit("en");
        }
        match self {
            Language::ChineseSimplified => "zh",
            Language::English => "en",
        }
    }
}

/// What `serde_json::from_str` reads from the text `json` as an object
/// whose values are all strings: its entries in key order, each key once;
/// none when the text is no such object.
pub uninterp spec fn json_string_map(json: Seq<char>) -> Option<Seq<(Seq<char>, Seq<char>)>>;

/// The texts of a list of entries.
pub open spec fn entry_views(v: Seq<(String, String)>) -> Seq<(Seq<char>, Seq<char>)> {
    v.map_values(|e: (String, String)| (e.0@, e.1@))
}

/// Reads a JSON object of strings with `serde_json::from_str`. The
/// contract names its result ([`json_string_map`]); the entries come out
/// of the `BTreeMap` that was read into.
#[verifier::external_body]
fn parse_string_map(json: &str) -> (r: Option<Vec<(String, String)>>)
    ensures
        match r {
            Some(v) => json_string_map(json@) == Some(entry_views(v@)),
            None => json_string_map(json@) is None,
        },
{
    match serde_json::from_str::<std::collections::BTreeMap<String, String>>(json) {
        Ok(m) => Some(m.into_iter().collect()),
        Err(_) => None,
    }
}

/// The translation table read from `json`: empty when the text is not a
/// JSON object of strings.
pub open spec fn table_of(json: Seq<char>) -> Seq<(Seq<char>, Seq<char>)> {
    match json_string_map(json) {
        Some(es) => es,
        None => Seq::empty(),
    }
}

/// Reads a translation table; a text that is not a JSON object of strings
/// gives an empty table.
pub fn parse_translations(json: &str) -> (r: Vec<(String, String)>)
    ensures
        entry_views(r@) == table_of(json@),
{
    match parse_string_map(json) {
        Some(v) => v,
        None => {
            let v: Vec<(String, String)> = Vec::new();
            assert(entry_views(v@) =~= Seq::<(Seq<char>, Seq<char>)>::empty());
            v
        },
    }
}

/// The index of the first entry of `es` with key `key`.
pub open spec fn first_with_key(es: Seq<(Seq<char>, Seq<char>)>, key: Seq<char>) -> Option<int> {
    if exists|i: int| 0 <= i < es.len() && #[trigger] es[i].0 == key {
        Some(
            choose|i: int|
                0 <= i < es.len() && #[trigger] es[i].0 == key && forall|j: int|
                    0 <= j < i ==> #[trigger] es[j].0 != key,
        )
    } else {
        None
    }
}

/// What a table gives for `key`: the translation of its entry with that
/// key, or the key itself when there is none.
pub open spec fn translate(es: Seq<(Seq<char>, Seq<char>)>, key: Seq<char>) -> Seq<char> {
    match first_with_key(es, key) {
        Some(i) => es[i].1,
        None => key,
    }
}

fn lookup(es: &Vec<(String, String)>, key: &str) -> (r: String)
    ensures
        r@ == translate(entry_views(es@), key@),
{
    let ghost v = entry_views(es@);
    let kc = chars_of(key);
    let mut i: usize = 0;
    while i < es.len()
        invariant
            i <= es@.len(),
            v == entry_views(es@),
            kc@ == key@,
            forall|j: int| 0 <= j < i ==> #[trigger] v[j].0 != key@,
        decreases es@.len() - i,
    {
        let k = chars_of(es[i].0.as_str());
        if eq_vec(&k, &kc) {
            proof {
                assert(v[i as int].0 == key@);
                let c = choose|c: int|
                    0 <= c < v.len() && #[trigger] v[c].0 == key@ && forall|j: int|
                        0 <= j < c ==> #[trigger] v[j].0 != key@;
                if c < i {
                } else if c > i {
                    assert(v[i as int].0 != key@);
                }
            }
            return es[i].1.clone();
        }
        i = i + 1;
    }
    key.to_owned()
}

fn eq_vec(a: &Vec<char>, b: &Vec<char>) -> (r: bool)
    ensures
        r == (a@ == b@),
{
    if a.len() != b.len() {
        return false;
    }
    let mut i: usize = 0;
    while i < a.len()
        invariant
            a@.len() == b@.len(),
            i <= a@.len(),
            forall|j: int| 0 <= j < i ==> a@[j] == b@[j],
        decreases a@.len() - i,
    {
        if a[i] != b[i] {
            return false;
        }
        i = i + 1;
    }
    assert(a@ =~= b@);
    true
}

/// The translation tables of the interface languages, and the language in
/// use.
pub struct I18nManager {
    pub active_lang: Language,
    pub zh: Vec<(String, String)>,
    pub en: Vec<(String, String)>,
}

impl I18nManager {
    /// The translation table of `lang`.
    pub open spec fn table(&self, lang: Language) -> Seq<(Seq<char>, Seq<char>)> {
        match lang {
            Language::ChineseSimplified => entry_views(self.zh@),
            Language::English => entry_views(self.en@),
        }
    }

    /// A manager for `lang` with the tables read from the Chinese and the
    /// English translation texts.
    pub fn new(lang: Language, zh_json: &str, en_json: &str) -> (r: Self)
        ensures
            r.active_lang == lang,
            r.table(Language::ChineseSimplified) == table_of(zh_json@),
            r.table(Language::English) == table_of(en_json@),
    {
        let mut m = I18nManager { active_lang: lang, zh: Vec::new(), en: Vec::new() };
        m.load_all(zh_json, en_json);
        m
    }

    /// Reads both translation tables, replacing those held.
    pub fn load_all(&mut self, zh_json: &str, en_json: &str)
        ensures
            final(self).active_lang == old(self).active_lang,
            final(self).table(Language::ChineseSimplified) == table_of(zh_json@),
            final(self).table(Language::English) == table_of(en_json@),
    {
        self.zh = parse_translations(zh_json);
        self.en = parse_translations(en_json);
    }

    /// The translation of `key` in the active language, or `key` itself
    /// when the table has none.
    pub fn tr(&self, key: &str) -> (r: String)
        ensures
            r@ == translate(self.table(self.active_lang), key@),
    {
        match self.active_lang {
            Language::ChineseSimplified => lookup(&self.zh, key),
            Language::English => lookup(&self.en, key),
        }
    }
}

} // verus!
