//! The message catalogue: per-language message tables, lookup by key, and
//! placeholder substitution.
//!
//! A manager is built from already-parsed language catalogues; reading
//! and parsing the language files is the calling layer's job. Messages
//! carry placeholders such as `{name}`, replaced one argument at a time.

use vstd::prelude::*;
use crate::text::replace;
use crate::text::replace_spec;

verus! {

/// What can go wrong looking up languages and messages.
#[derive(Debug, Clone)]
pub enum I18nError {
    /// No catalogue carries this language code.
    LanguageNotFound(String),
    /// The current catalogue has no message under this key.
    MessageNotFound(String),
}

/// A language's identity: its code (such as `ja`) and display name.
#[derive(Debug, Clone)]
pub struct LanguageInfo {
    pub code: String,
    pub name: String,
}

/// One parsed language file: the language's identity and its messages as
/// key–text pairs.
#[derive(Debug, Clone)]
pub struct LanguageData {
    pub language: LanguageInfo,
    pub messages: Vec<(String, String)>,
}

/// The index of the first pair whose key reads `key`, or `pairs.len()` if
/// there is none.
pub open spec fn key_index(pairs: Seq<(String, String)>, key: Seq<char>) -> int
    decreases pairs.len(),
{
    if pairs.len() == 0 {
        0
    } else if pairs.first().0@ == key {
        0
    } else {
        1 + key_index(pairs.drop_first(), key)
    }
}

/// The index of the first catalogue whose language code reads `code`, or
/// `catalogs.len()` if there is none.
pub open spec fn catalog_index(catalogs: Seq<LanguageData>, code: Seq<char>) -> int
    decreases catalogs.len(),
{
    if catalogs.len() == 0 {
        0
    } else if catalogs.first().language.code@ == code {
        0
    } else {
        1 + catalog_index(catalogs.drop_first(), code)
    }
}

/// The message after substituting each argument in order: every
/// occurrence of `{key}` becomes that argument's value.
pub open spec fn apply_args(msg: Seq<char>, args: Seq<(String, String)>) -> Seq<char>
    decreases args.len(),
{
    if args.len() == 0 {
        msg
    } else {
        apply_args(
            replace_spec(msg, "{"@ + args.first().0@ + "}"@, args.first().1@),
            args.drop_first(),
        )
    }
}

/// The message catalogue manager: the loaded catalogues, the language in
/// use, and its message table.
#[derive(Debug, Clone)]
pub struct I18nManager {
    pub current_language: String,
    pub messages: Vec<(String, String)>,
    pub available_languages: Vec<LanguageInfo>,
    pub catalogs: Vec<LanguageData>,
}

impl I18nManager {
    /// Builds a manager over the given catalogues and switches to the
    /// default language `ja`, which must be among them.
    pub fn new(catalogs: Vec<LanguageData>) -> (r: Result<I18nManager, I18nError>)
        ensures
            catalog_index(catalogs@, "ja"@) < catalogs@.len() ==> (r matches Ok(m) && {
                &&& m.current_language@ == "ja"@
                &&& m.messages@ == catalogs@[catalog_index(catalogs@, "ja"@)].messages@
                &&& m.available_languages@.len() == catalogs@.len()
                &&& forall|i: int|
                    0 <= i < catalogs@.len() ==> #[trigger] m.available_languages@[i].code@
                        == catalogs@[i].language.code@ && m.available_languages@[i].name@
                        == catalogs@[i].language.name@
                &&& m.catalogs@ == catalogs@
            }),
            catalog_index(catalogs@, "ja"@) == catalogs@.len() ==> (r matches Err(e)
                && e matches I18nError::LanguageNotFound(c) && c@ == "ja"@),
    {
        let mut available: Vec<LanguageInfo> = Vec::new();
        let mut i: usize = 0;
        while i < catalogs.len()
            invariant
                i <= catalogs@.len(),
                available@.len() == i,
                forall|j: int|
                    0 <= j < i ==> #[trigger] available@[j].code@ == catalogs@[j].language.code@
                        && available@[j].name@ == catalogs@[j].language.name@,
            decreases catalogs@.len() - i,
        {
            let code = catalogs[i].language.code.clone();
            let name = catalogs[i].language.name.clone();
            proof {
                assert(code@ == catalogs@[i as int].language.code@);
                assert(name@ == catalogs@[i as int].language.name@);
            }
            available.push(LanguageInfo { code, name });
            proof {
                assert(available@[i as int].code@ == catalogs@[i as int].language.code@);
                assert(available@[i as int].name@ == catalogs@[i as int].language.name@);
            }
            i = i + 1;
        }
        let mut manager = I18nManager {
            current_language: String::from_str("ja"),
            messages: Vec::new(),
            available_languages: available,
            catalogs,
        };
        match manager.load_language("ja") {
            Ok(u) => Ok(manager),
            Err(e) => Err(e),
        }
    }

    /// Switches to the catalogue with this language code.
    pub fn load_language(&mut self, language_code: &str) -> (r: Result<(), I18nError>)
        ensures
            final(self).catalogs == old(self).catalogs,
            final(self).available_languages == old(self).available_languages,
            catalog_index(old(self).catalogs@, language_code@) < old(self).catalogs@.len() ==> (
            r matches Ok(u) && {
                &&& final(self).current_language@ == language_code@
                &&& final(self).messages@ == old(self).catalogs@[catalog_index(
                    old(self).catalogs@,
                    language_code@,
                )].messages@
            }),
            catalog_index(old(self).catalogs@, language_code@) == old(self).catalogs@.len() ==> (
            r matches Err(e) && e matches I18nError::LanguageNotFound(c) && c@ == language_code@
                && final(self).current_language == old(self).current_language
                && final(self).messages == old(self).messages),
    {
        let wanted = language_code.to_owned();
        let n = self.catalogs.len();
        let mut i: usize = 0;
        while i < n
            invariant
                *self == *old(self),
                i <= n,
                n == self.catalogs@.len(),
                wanted@ == language_code@,
                forall|l: int|
                    0 <= l < i ==> (#[trigger] self.catalogs@[l]).language.code@ != language_code@,
            decreases n - i,
        {
            if self.catalogs[i].language.code == wanted {
                proof {
                    lemma_catalog_index_pins(self.catalogs@, language_code@, i as int);
                }
                let msgs = clone_pairs(&self.catalogs[i].messages);
                self.current_language = wanted;
                self.messages = msgs;
                return Ok(());
            }
            i = i + 1;
        }
        proof {
            lemma_catalog_index_props(self.catalogs@, language_code@);
            if catalog_index(self.catalogs@, language_code@) < n as int {
                assert(self.catalogs@[catalog_index(self.catalogs@, language_code@)].language.code@
                    == language_code@);
                assert(false);
            }
        }
        Err(I18nError::LanguageNotFound(wanted))
    }

    /// Looks up the message stored under this key in the current
    /// language.
    pub fn get_message(&self, key: &str) -> (r: Result<String, I18nError>)
        ensures
            key_index(self.messages@, key@) < self.messages@.len() ==> (r matches Ok(m) && m@
                == self.messages@[key_index(self.messages@, key@)].1@),
            key_index(self.messages@, key@) == self.messages@.len() ==> (r matches Err(e)
                && e matches I18nError::MessageNotFound(k) && k@ == key@),
    {
        let wanted = key.to_owned();
        let n = self.messages.len();
        let mut i: usize = 0;
        while i < n
            invariant
                i <= n,
                n == self.messages@.len(),
                wanted@ == key@,
                forall|l: int| 0 <= l < i ==> (#[trigger] self.messages@[l]).0@ != key@,
            decreases n - i,
        {
            if self.messages[i].0 == wanted {
                proof {
                    lemma_key_index_pins(self.messages@, key@, i as int);
                }
                return Ok(self.messages[i].1.clone());
            }
            i = i + 1;
        }
        proof {
            lemma_key_index_props(self.messages@, key@);
            if key_index(self.messages@, key@) < n as int {
                assert(self.messages@[key_index(self.messages@, key@)].0@ == key@);
                assert(false);
            }
        }
        Err(I18nError::MessageNotFound(wanted))
    }

    /// Looks up a message and substitutes the given arguments in order:
    /// each `{key}` placeholder becomes that argument's value.
    pub fn get_message_with_args(&self, key: &str, args: &Vec<(String, String)>) -> (r: Result<
        String,
        I18nError,
    >)
        ensures
            key_index(self.messages@, key@) < self.messages@.len() ==> (r matches Ok(m) && m@
                == apply_args(self.messages@[key_index(self.messages@, key@)].1@, args@)),
            key_index(self.messages@, key@) == self.messages@.len() ==> (r matches Err(e)
                && e matches I18nError::MessageNotFound(k) && k@ == key@),
    {
        let looked = self.get_message(key);
        let mut message = match looked {
            Ok(m) => m,
            Err(e) => {
                return Err(e);
            },
        };
        let ghost m0 = message@;
        let n = args.len();
        let mut i: usize = 0;
        proof {
            assert(args@.skip(0) =~= args@);
        }
        while i < n
            invariant
                i <= n,
                n == args@.len(),
                apply_args(m0, args@) == apply_args(message@, args@.skip(i as int)),
            decreases n - i,
        {
            let pattern = String::from_str("{").concat(args[i].0.as_str()).concat("}");
            proof {
                reveal_strlit("{");
                reveal_strlit("}");
                assert(pattern@.len() >= 1);
                assert(args@.skip(i as int).first() == args@[i as int]);
                assert(args@.skip(i as int).drop_first() =~= args@.skip(i as int + 1));
            }
            let replaced = replace(message.as_str(), pattern.as_str(), args[i].1.as_str());
            message = replaced;
            i = i + 1;
        }
        proof {
            assert(args@.skip(n as int) =~= Seq::<(String, String)>::empty());
        }
        Ok(message)
    }

    /// The code of the language in use.
    pub fn current_language(&self) -> (r: &str)
        ensures
            r@ == self.current_language@,
    {
        self.current_language.as_str()
    }

    /// The identities of every loaded language, in catalogue order.
    pub fn available_languages(&self) -> (r: &[LanguageInfo])
        ensures
            r@ == self.available_languages@,
    {
        self.available_languages.as_slice()
    }

    /// Whether some loaded language carries this code.
    pub fn is_language_available(&self, language_code: &str) -> (r: bool)
        ensures
            r == exists|i: int|
                0 <= i < self.available_languages@.len()
                    && (#[trigger] self.available_languages@[i]).code@ == language_code@,
    {
        let wanted = language_code.to_owned();
        let n = self.available_languages.len();
        let mut i: usize = 0;
        while i < n
            invariant
                i <= n,
                n == self.available_languages@.len(),
                wanted@ == language_code@,
                forall|l: int|
                    0 <= l < i ==> (#[trigger] self.available_languages@[l]).code@
                        != language_code@,
            decreases n - i,
        {
            if self.available_languages[i].code == wanted {
                return true;
            }
            i = i + 1;
        }
        false
    }
}

/// Copies a key–value list (the strings are copied character for
/// character).
fn clone_pairs(pairs: &Vec<(String, String)>) -> (r: Vec<(String, String)>)
    ensures
        r@ == pairs@,
{
    let mut out: Vec<(String, String)> = Vec::new();
    let mut i: usize = 0;
    while i < pairs.len()
        invariant
            i <= pairs@.len(),
            out@.len() == i,
            forall|j: int| 0 <= j < i ==> out@[j] == pairs@[j],
        decreases pairs@.len() - i,
    {
        let key = pairs[i].0.clone();
        let value = pairs[i].1.clone();
        out.push((key, value));
        proof {
            assert(out@[i as int] == pairs@[i as int]);
        }
        i = i + 1;
    }
    proof {
        assert(out@ =~= pairs@);
    }
    out
}

/// `key_index` finds no earlier occurrence, and an occurrence when it
/// lands inside the table.
proof fn lemma_key_index_props(pairs: Seq<(String, String)>, key: Seq<char>)
    ensures
        0 <= key_index(pairs, key) <= pairs.len(),
        forall|l: int| 0 <= l < key_index(pairs, key) ==> (#[trigger] pairs[l]).0@ != key,
        key_index(pairs, key) < pairs.len() ==> pairs[key_index(pairs, key)].0@ == key,
    decreases pairs.len(),
{
    if pairs.len() > 0 && pairs.first().0@ != key {
        let rest = pairs.drop_first();
        lemma_key_index_props(rest, key);
        let w = key_index(pairs, key);
        assert(w == 1 + key_index(rest, key));
        assert forall|l: int| 0 <= l < w implies (#[trigger] pairs[l]).0@ != key by {
            if l >= 1 {
                assert(rest[l - 1] == pairs[l]);
            }
        }
        if w < pairs.len() {
            assert(pairs[w] == rest[w - 1]);
        }
    }
}

/// A scan that found `key` first at position `i` pins `key_index`.
proof fn lemma_key_index_pins(pairs: Seq<(String, String)>, key: Seq<char>, i: int)
    requires
        0 <= i < pairs.len(),
        pairs[i].0@ == key,
        forall|l: int| 0 <= l < i ==> (#[trigger] pairs[l]).0@ != key,
    ensures
        key_index(pairs, key) == i,
{
    lemma_key_index_props(pairs, key);
    let w = key_index(pairs, key);
    if w < i {
        assert(pairs[w].0@ != key);
        assert(false);
    }
    if w > i {
        assert(pairs[i].0@ != key);
        assert(false);
    }
}

/// `catalog_index` finds no earlier occurrence, and an occurrence when it
/// lands inside the list.
proof fn lemma_catalog_index_props(catalogs: Seq<LanguageData>, code: Seq<char>)
    ensures
        0 <= catalog_index(catalogs, code) <= catalogs.len(),
        forall|l: int|
            0 <= l < catalog_index(catalogs, code) ==> (#[trigger] catalogs[l]).language.code@
                != code,
        catalog_index(catalogs, code) < catalogs.len() ==> catalogs[catalog_index(
            catalogs,
            code,
        )].language.code@ == code,
    decreases catalogs.len(),
{
    if catalogs.len() > 0 && catalogs.first().language.code@ != code {
        let rest = catalogs.drop_first();
        lemma_catalog_index_props(rest, code);
        let w = catalog_index(catalogs, code);
        assert(w == 1 + catalog_index(rest, code));
        assert forall|l: int|
            0 <= l < w implies (#[trigger] catalogs[l]).language.code@ != code by {
            if l >= 1 {
                assert(rest[l - 1] == catalogs[l]);
            }
        }
        if w < catalogs.len() {
            assert(catalogs[w] == rest[w - 1]);
        }
    }
}

/// A scan that found `code` first at position `i` pins `catalog_index`.
proof fn lemma_catalog_index_pins(catalogs: Seq<LanguageData>, code: Seq<char>, i: int)
    requires
        0 <= i < catalogs.len(),
        catalogs[i].language.code@ == code,
        forall|l: int| 0 <= l < i ==> (#[trigger] catalogs[l]).language.code@ != code,
    ensures
        catalog_index(catalogs, code) == i,
{
    lemma_catalog_index_props(catalogs, code);
    let w = catalog_index(catalogs, code);
    if w < i {
        assert(catalogs[w].language.code@ != code);
        assert(false);
    }
    if w > i {
        assert(catalogs[i].language.code@ != code);
        assert(false);
    }
}

} // verus!
