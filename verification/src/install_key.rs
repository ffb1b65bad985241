//! Keys of cargo's record of installed tools.
//!
//! A key has the form `name version (source)`: a package name, its version,
//! and where it was installed from. The parts are separated by whitespace;
//! the source is optional and may itself hold blanks.

use vstd::prelude::*;
use vstd::slice::slice_subrange;
use crate::text::{chars_of, join, joined, texts};
use crate::version::{parse_version, version_parses};

verus! {

/// Whether `c` separates words: the characters that Unicode calls white
/// space.
pub open spec fn is_whitespace(c: char) -> bool {
    let u = c as u32;
    (0x09 <= u && u <= 0x0d) || u == 0x20 || u == 0x85 || u == 0xa0 || u == 0x1680 || (0x2000 <= u
        && u <= 0x200a) || u == 0x2028 || u == 0x2029 || u == 0x202f || u == 0x205f || u == 0x3000
}

/// Where the word that begins at `i` ends.
pub open spec fn word_end(s: Seq<char>, i: int) -> int
    decreases s.len() - i,
{
    if 0 <= i < s.len() && !is_whitespace(s[i]) {
        word_end(s, i + 1)
    } else {
        i
    }
}

/// A word ends within the text, and behind its first character.
pub proof fn lemma_word_end(s: Seq<char>, i: int)
    requires
        0 <= i <= s.len(),
    ensures
        i <= word_end(s, i) <= s.len(),
        i < s.len() && !is_whitespace(s[i]) ==> i < word_end(s, i),
    decreases s.len() - i,
{
    if i < s.len() && !is_whitespace(s[i]) {
        lemma_word_end(s, i + 1);
    }
}

/// The words of `s` from position `i` on: the runs of characters that are
/// not white space.
pub open spec fn words_from(s: Seq<char>, i: int) -> Seq<Seq<char>>
    decreases s.len() - i,
{
    if i < 0 || i >= s.len() {
        Seq::empty()
    } else if is_whitespace(s[i]) {
        words_from(s, i + 1)
    } else {
        proof {
            lemma_word_end(s, i);
        }
        let end = word_end(s, i);
        seq![s.subrange(i, end)] + words_from(s, end)
    }
}

/// The words of a text.
pub open spec fn words(s: Seq<char>) -> Seq<Seq<char>> {
    words_from(s, 0)
}

/// `s` without the parentheses around it, if it stands in parentheses.
pub open spec fn without_parentheses(s: Seq<char>) -> Seq<char> {
    if s.len() >= 2 && s.first() == '(' && s.last() == ')' {
        s.subrange(1, s.len() - 1)
    } else {
        s
    }
}

fn whitespace(c: char) -> (r: bool)
    ensures
        r == is_whitespace(c),
{
    let u = c as u32;
    (0x09 <= u && u <= 0x0d) || u == 0x20 || u == 0x85 || u == 0xa0 || u == 0x1680 || (0x2000 <= u
        && u <= 0x200a) || u == 0x2028 || u == 0x2029 || u == 0x202f || u == 0x205f || u == 0x3000
}

/// Splits a text into its words.
pub fn split_whitespace(text: &str) -> (r: Vec<String>)
    ensures
        texts(r@) == words(text@),
{
    let chars = chars_of(text);
    let n = chars.len();
    let mut found: Vec<String> = Vec::new();
    let mut i: usize = 0;
    assert(texts(found@) =~= Seq::<Seq<char>>::empty());
    assert(texts(found@) + words_from(text@, 0) =~= words_from(text@, 0));
    while i < n
        invariant
            n == chars@.len(),
            chars@ == text@,
            i <= n,
            words(text@) == texts(found@) + words_from(text@, i as int),
        decreases n - i,
    {
        if whitespace(chars[i]) {
            i += 1;
        } else {
            let start = i;
            i += 1;
            while i < n && !whitespace(chars[i])
                invariant
                    n == chars@.len(),
                    chars@ == text@,
                    start < i <= n,
                    word_end(text@, start as int) == word_end(text@, i as int),
                decreases n - i,
            {
                i += 1;
            }
            let ghost before = texts(found@);
            let word = text.substring_char(start, i).to_owned();
            found.push(word);
            proof {
                let piece = text@.subrange(start as int, i as int);
                assert(texts(found@) =~= before + seq![piece]);
                assert((before + seq![piece]) + words_from(text@, i as int) =~= before + (
                seq![piece] + words_from(text@, i as int)));
            }
        }
    }
    assert(texts(found@) + Seq::<Seq<char>>::empty() =~= texts(found@));
    found
}

/// Puts the words of `parts` from position `from` on together, with a blank
/// between each two.
pub fn join_from(parts: &Vec<String>, from: usize) -> (r: String)
    requires
        from <= parts@.len(),
    ensures
        r@ == joined(
            texts(parts@).subrange(from as int, parts@.len() as int),
            " "@,
            parts@.len() - from,
        ),
{
    let rest = slice_subrange(parts.as_slice(), from, parts.len());
    assert(texts(rest@) =~= texts(parts@).subrange(from as int, parts@.len() as int));
    join(rest, " ")
}

/// `text` without the parentheses around it, if it stands in parentheses.
pub fn strip_parentheses(text: String) -> (r: String)
    ensures
        r@ == without_parentheses(text@),
{
    let chars = chars_of(text.as_str());
    let n = chars.len();
    if n >= 2 && chars[0] == '(' && chars[n - 1] == ')' {
        text.as_str().substring_char(1, n - 1).to_owned()
    } else {
        text
    }
}

/// Why a text is no install key.
#[derive(Debug, Clone, PartialEq, Eq)]
pub enum InstallKeyError {
    /// The key is empty.
    MissingName,
    /// The key ends after the package name.
    MissingVersion,
    /// What stands in the place of the version is none.
    InvalidVersion { version: String },
}

/// What is pinned of an [`InstallKeyError`].
pub enum KeyFault {
    MissingName,
    MissingVersion,
    InvalidVersion { version: Seq<char> },
}

impl View for InstallKeyError {
    type V = KeyFault;

    open spec fn view(&self) -> KeyFault {
        match self {
            InstallKeyError::MissingName => KeyFault::MissingName,
            InstallKeyError::MissingVersion => KeyFault::MissingVersion,
            InstallKeyError::InvalidVersion { version } => KeyFault::InvalidVersion {
                version: version@,
            },
        }
    }
}

impl InstallKeyError {
    /// The error in words.
    pub open spec fn message_text(&self) -> Seq<char> {
        match self {
            InstallKeyError::MissingName => "Missing package name in install key"@,
            InstallKeyError::MissingVersion => "Missing version in install key"@,
            InstallKeyError::InvalidVersion { version } => "invalid version '"@ + version@
                + "' in install key"@,
        }
    }

    /// The error in words.
    pub fn message(&self) -> (r: String)
        ensures
            r@ == self.message_text(),
    {
        match self {
            InstallKeyError::MissingName => "Missing package name in install key".to_owned(),
            InstallKeyError::MissingVersion => "Missing version in install key".to_owned(),
            InstallKeyError::InvalidVersion { version } => "invalid version '".to_owned().concat(
                version.as_str(),
            ).concat("' in install key"),
        }
    }
}

/// The key of an installed tool.
#[derive(Debug, Clone, PartialEq, Eq, Hash)]
pub struct InstallKey {
    name: String,
    version: semver::Version,
    source: Option<String>,
}

/// What the words of a key say of its source: nothing where only name and
/// version are given, else the rest, put together again and taken out of
/// its parentheses.
pub open spec fn source_of(w: Seq<Seq<char>>) -> Option<Seq<char>> {
    if w.len() <= 2 {
        None
    } else {
        Some(without_parentheses(joined(w.subrange(2, w.len() as int), " "@, w.len() - 2)))
    }
}

impl InstallKey {
    /// The package name.
    pub closed spec fn name_text(&self) -> Seq<char> {
        self.name@
    }

    /// The version that the key names, as it was read from the key's second
    /// word.
    pub closed spec fn version_value(&self) -> semver::Version {
        self.version
    }

    /// The source, if the key names one.
    pub closed spec fn source_text(&self) -> Option<Seq<char>> {
        match self.source {
            Some(source) => Some(source@),
            None => None,
        }
    }

    /// Reads a key of the form `name version (source)`.
    ///
    /// The first word is the name and the second the version, which has to
    /// be one; what follows is the source.
    pub fn parse(raw: &str) -> (r: Result<InstallKey, InstallKeyError>)
        ensures
            match r {
                Ok(key) => {
                    &&& words(raw@).len() >= 2
                    &&& version_parses(words(raw@)[1])
                    &&& key.name_text() == words(raw@)[0]
                    &&& key.source_text() == source_of(words(raw@))
                },
                Err(e) => e@ == if words(raw@).len() == 0 {
                    KeyFault::MissingName
                } else if words(raw@).len() == 1 {
                    KeyFault::MissingVersion
                } else {
                    KeyFault::InvalidVersion { version: words(raw@)[1] }
                } && (words(raw@).len() >= 2 ==> !version_parses(words(raw@)[1])),
            },
    {
        let parts = split_whitespace(raw);
        if parts.len() == 0 {
            return Err(InstallKeyError::MissingName);
        }
        if parts.len() == 1 {
            return Err(InstallKeyError::MissingVersion);
        }
        assert(texts(parts@)[0] == parts@[0]@);
        assert(texts(parts@)[1] == parts@[1]@);
        let version = match parse_version(parts[1].as_str()) {
            Ok(version) => version,
            Err(_) => {
                return Err(InstallKeyError::InvalidVersion { version: parts[1].clone() });
            },
        };
        let source = if parts.len() > 2 {
            Some(strip_parentheses(join_from(&parts, 2)))
        } else {
            None
        };
        Ok(InstallKey { name: parts[0].clone(), version, source })
    }

    /// The package name.
    pub fn name(&self) -> (r: &str)
        ensures
            r@ == self.name_text(),
    {
        self.name.as_str()
    }

    /// The version.
    pub fn version(&self) -> (r: &semver::Version)
        ensures
            *r == self.version_value(),
    {
        &self.version
    }

    /// The source, if the key names one.
    pub fn source(&self) -> (r: Option<&str>)
        ensures
            match r {
                Some(text) => self.source_text() == Some(text@),
                None => self.source_text() is None,
            },
    {
        match &self.source {
            Some(source) => Some(source.as_str()),
            None => None,
        }
    }
}

} // verus!
