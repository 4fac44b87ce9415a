//! Configuration data and the text/entity filters.
//!
//! The configuration mirrors the tool's TOML file: input paths, output
//! path and format, per-source filters, and an optional logging level.
//! Loading and parsing the file is a collaborator's concern; the library
//! holds the plain values and the filter logic that screens texts and
//! entities before annotation.

use vstd::prelude::*;
use crate::encoding::{byte_len, byte_count};
use crate::text::{
    char_alnum, is_ascii_punct_char, is_ascii_digit_char, is_alphanumeric, contains_punctuation,
    contains_numbers, contains_special_characters, chars_of, s_len,
};

verus! {

/// Logging configuration: the level name.
pub struct Logging {
    pub level: String,
}

impl Default for Logging {
    /// The default level is "info".
    fn default() -> (r: Logging)
        ensures
            r.level@ == "info"@,
    {
        Logging { level: "info".to_owned() }
    }
}

/// An input source: a path and whether to screen its records.
pub struct Input {
    pub path: String,
    pub filter: Option<bool>,
}

impl Default for Input {
    /// The default input: empty path, filtering on.
    fn default() -> (r: Input)
        ensures
            r.path@.len() == 0,
            r.filter == Some(true),
    {
        Input { path: String::new(), filter: Some(true) }
    }
}

/// Screens applied to texts and entity names before annotation.
pub struct Filters {
    pub alphanumeric: bool,
    pub case_sensitive: bool,
    pub min_length: i32,
    pub max_length: i32,
    pub punctuation: bool,
    pub numbers: bool,
    pub special_characters: bool,
    pub accept_special_characters: Option<String>,
    pub list_of_special_characters: Option<Vec<char>>,
}

impl Default for Filters {
    /// The default filters: everything off, lengths 0 to 1024, an empty
    /// special-character list.
    fn default() -> (r: Filters)
        ensures
            !r.alphanumeric,
            !r.case_sensitive,
            r.min_length == 0,
            r.max_length == 1024,
            !r.punctuation,
            !r.numbers,
            !r.special_characters,
            r.accept_special_characters is None,
            r.list_of_special_characters matches Some(l) && l@.len() == 0,
    {
        Filters {
            alphanumeric: false,
            case_sensitive: false,
            min_length: 0,
            max_length: 1024,
            punctuation: false,
            numbers: false,
            special_characters: false,
            accept_special_characters: None,
            list_of_special_characters: Some(Vec::new()),
        }
    }
}

/// The full set of characters the special-character screen can reject.
pub open spec fn default_special_characters() -> Seq<char> {
    seq![
        '@',
        '#',
        '$',
        '%',
        '^',
        '&',
        '*',
        '(',
        ')',
        '-',
        '_',
        '=',
        '+',
        '[',
        ']',
        '{',
        '}',
        ';',
        ':',
        '"',
        '\'',
        '<',
        '>',
        ',',
        '.',
        '?',
        '/',
        '\\',
        '|',
        '~',
        '`',
    ]
}

/// The characters a filter's `accept_special_characters` field exempts.
pub open spec fn accepted_special_characters(f: Filters) -> Seq<char> {
    match f.accept_special_characters {
        Some(s) => s@,
        None => Seq::empty(),
    }
}

/// Whether a text passes the filters: it is non-empty, not rejected by any
/// enabled screen, and its byte length is within the configured bounds.
/// The alphanumeric screen rejects texts made of alphanumeric characters
/// only; the punctuation, number and special-character screens reject
/// texts containing such a character.
pub open spec fn passes_filters(f: Filters, t: Seq<char>, blen: int) -> bool {
    &&& t.len() > 0
    &&& !(f.alphanumeric && (forall|i: int| 0 <= i < t.len() ==> char_alnum(#[trigger] t[i])))
    &&& !(f.punctuation && (exists|i: int|
        0 <= i < t.len() && is_ascii_punct_char(#[trigger] t[i])))
    &&& !(f.numbers && (exists|i: int| 0 <= i < t.len() && is_ascii_digit_char(#[trigger] t[i])))
    &&& !(f.special_characters && (exists|i: int|
        0 <= i < t.len() && (f.list_of_special_characters->0)@.contains(#[trigger] t[i])))
    &&& !(f.min_length >= 0 && blen < f.min_length)
    &&& !(f.max_length >= 0 && blen > f.max_length)
}

impl Filters {
    /// Computes the special-character list: the full set minus the
    /// characters that `accept_special_characters` exempts.  Only this
    /// list changes; every other field keeps its value.
    pub fn set_special_characters(&mut self)
        ensures
            final (self).list_of_special_characters matches Some(l) && (forall|c: char|
                l@.contains(c) == (default_special_characters().contains(c)
                    && !accepted_special_characters(*old(self)).contains(c))),
            final (self).alphanumeric == old(self).alphanumeric,
            final (self).case_sensitive == old(self).case_sensitive,
            final (self).min_length == old(self).min_length,
            final (self).max_length == old(self).max_length,
            final (self).punctuation == old(self).punctuation,
            final (self).numbers == old(self).numbers,
            final (self).special_characters == old(self).special_characters,
            final (self).accept_special_characters == old(self).accept_special_characters,
    {
        let accept: Vec<char> = match &self.accept_special_characters {
            Some(s) => chars_of(s.as_str()),
            None => Vec::new(),
        };
        proof {
            assert(accept@ =~= accepted_special_characters(*self));
        }
        let defaults = default_specials_vec();
        let dn = defaults.len();
        let mut out: Vec<char> = Vec::new();
        for i in 0..dn
            invariant
                dn == defaults@.len(),
                defaults@ == default_special_characters(),
                accept@ == accepted_special_characters(*self),
                forall|c: char|
                    out@.contains(c) == (default_special_characters().take(i as int).contains(c)
                        && !accepted_special_characters(*self).contains(c)),
        {
            let ghost pre = out@;
            let c = defaults[i];
            let add = !crate::text::char_in(&accept, c);
            if add {
                out.push(c);
            }
            proof {
                let d = default_special_characters();
                assert(add == !accept@.contains(c));
                assert(d.take(i + 1) =~= d.take(i as int).push(d[i as int]));
                assert forall|x: char|
                    out@.contains(x) == (d.take(i + 1).contains(x) && !accept@.contains(x)) by {
                    if out@.contains(x) {
                        if !pre.contains(x) {
                            assert(out@.last() == x);
                            assert(x == c);
                            assert(d.take(i + 1)[i as int] == x);
                            assert(d.take(i + 1).contains(x));
                        } else {
                            assert(d.take(i as int).contains(x));
                            let k = choose|k: int|
                                0 <= k < i && #[trigger] d.take(i as int)[k] == x;
                            assert(d.take(i + 1)[k] == x);
                            assert(d.take(i + 1).contains(x));
                        }
                    }
                    if d.take(i + 1).contains(x) && !accept@.contains(x) {
                        let k = choose|k: int| 0 <= k <= i && #[trigger] d.take(i + 1)[k] == x;
                        if k < i {
                            assert(d.take(i as int)[k] == x);
                            assert(d.take(i as int).contains(x));
                            assert(pre.contains(x));
                            let k2 = choose|k2: int| 0 <= k2 < pre.len() && #[trigger] pre[k2] == x;
                            assert(out@[k2] == x);
                            assert(out@.contains(x));
                        } else {
                            assert(x == c);
                            assert(add);
                            assert(out@.last() == x);
                            assert(out@.contains(x));
                        }
                    }
                }
            }
        }
        proof {
            assert(default_special_characters().take(dn as int) =~= default_special_characters());
        }
        self.list_of_special_characters = Some(out);
    }

    /// The computed special-character list.
    pub fn get_special_characters(&self) -> (r: Vec<char>)
        requires
            self.list_of_special_characters is Some,
        ensures
            r@ == (self.list_of_special_characters->0)@,
    {
        let l = match &self.list_of_special_characters {
            Some(l) => l,
            None => unreached(),
        };
        let n = l.len();
        let mut r: Vec<char> = Vec::new();
        for i in 0..n
            invariant
                n == l@.len(),
                r@ == l@.take(i as int),
        {
            r.push(l[i]);
            proof {
                assert(r@ =~= l@.take(i + 1));
            }
        }
        proof {
            assert(l@.take(n as int) =~= l@);
        }
        r
    }

    /// Whether a text passes every enabled screen, per [`passes_filters`]
    /// with the text's byte length as the measured length.
    pub fn is_valid(&self, text: &str) -> (r: bool)
        requires
            self.special_characters ==> self.list_of_special_characters is Some,
        ensures
            r == passes_filters(*self, text@, byte_len(text@)),
    {
        let n = s_len(text);
        if n == 0 {
            return false;
        }
        if self.alphanumeric && is_alphanumeric(text) {
            return false;
        }
        if self.punctuation && contains_punctuation(text) {
            return false;
        }
        if self.numbers && contains_numbers(text) {
            return false;
        }
        if self.special_characters {
            let specials = self.get_special_characters();
            if contains_special_characters(text, &specials) {
                return false;
            }
        }
        let blen = byte_count(text);
        if self.min_length >= 0 && (blen as u64) < (self.min_length as u64) {
            return false;
        }
        if self.max_length >= 0 && (blen as u64) > (self.max_length as u64) {
            return false;
        }
        true
    }
}

/// The full special-character set, as a vector.
fn default_specials_vec() -> (r: Vec<char>)
    ensures
        r@ == default_special_characters(),
{
    let mut v: Vec<char> = Vec::new();
    v.push('@');
    v.push('#');
    v.push('$');
    v.push('%');
    v.push('^');
    v.push('&');
    v.push('*');
    v.push('(');
    v.push(')');
    v.push('-');
    v.push('_');
    v.push('=');
    v.push('+');
    v.push('[');
    v.push(']');
    v.push('{');
    v.push('}');
    v.push(';');
    v.push(':');
    v.push('"');
    v.push('\'');
    v.push('<');
    v.push('>');
    v.push(',');
    v.push('.');
    v.push('?');
    v.push('/');
    v.push('\\');
    v.push('|');
    v.push('~');
    v.push('`');
    proof {
        assert(v@ =~= default_special_characters());
    }
    v
}

/// Texts to annotate: where they come from and how they are screened.
pub struct Texts {
    pub input: Input,
    pub filters: Filters,
}

impl Default for Texts {
    /// Default input and filters.
    fn default() -> (r: Texts)
        ensures
            !r.filters.case_sensitive,
            r.input.path@.len() == 0,
            r.input.filter == Some(true),
            r.filters.min_length == 0,
            r.filters.max_length == 1024,
    {
        Texts { input: Input::default(), filters: Filters::default() }
    }
}

/// Where annotations are written, and in which format.
pub struct Annotations {
    pub output: Output,
    pub format: Format,
}

impl Default for Annotations {
    /// Default output and format.
    fn default() -> (r: Annotations)
        ensures
            r.format == Format::Jsonl,
            r.output.path@.len() == 0,
    {
        Annotations { output: Output::default(), format: Format::default() }
    }
}

/// An output serialization format.
#[derive(Debug, Clone, Copy, PartialEq, Eq, Structural)]
pub enum Format {
    Csv,
    Jsonl,
    Spacy,
    Brat,
    Conll,
}

impl Default for Format {
    /// The default output format.
    fn default() -> (r: Format)
        ensures
            r == Format::Jsonl,
    {
        Format::Jsonl
    }
}

/// The output location.
pub struct Output {
    pub path: String,
}

impl Default for Output {
    /// The default output: an empty path.
    fn default() -> (r: Output)
        ensures
            r.path@.len() == 0,
    {
        Output { path: String::new() }
    }
}

/// Entities to search for: source, screens, and exclusions.
pub struct Entities {
    pub input: Input,
    pub filters: Filters,
    pub excludes: Excludes,
}

impl Default for Entities {
    /// Default input, filters and exclusions.
    fn default() -> (r: Entities)
        ensures
            r.excludes.path is None,
            !r.filters.case_sensitive,
            r.input.path@.len() == 0,
            r.input.filter == Some(true),
    {
        Entities { input: Input::default(), filters: Filters::default(), excludes: Excludes::default() }
    }
}

/// An optional file of entity names to drop from the catalog.
pub struct Excludes {
    pub path: Option<String>,
}

impl Default for Excludes {
    /// The default: no excludes file.
    fn default() -> (r: Excludes)
        ensures
            r.path is None,
    {
        Excludes { path: None }
    }
}

/// The whole configuration.
pub struct Config {
    pub texts: Texts,
    pub annotations: Annotations,
    pub entities: Entities,
    pub logging: Option<Logging>,
}

impl Default for Config {
    /// The default configuration, with default logging enabled.
    fn default() -> (r: Config)
        ensures
            r.logging matches Some(l) && l.level@ == "info"@,
            !r.texts.filters.case_sensitive,
            !r.entities.filters.case_sensitive,
            r.entities.excludes.path is None,
            r.annotations.format == Format::Jsonl,
    {
        Config {
            texts: Texts::default(),
            annotations: Annotations::default(),
            entities: Entities::default(),
            logging: Some(Logging::default()),
        }
    }
}

/// The index of the last `.` in a character sequence, or -1 if none.
pub open spec fn last_dot(s: Seq<char>) -> int
    decreases s.len(),
{
    if s.len() == 0 {
        -1
    } else if s.last() == '.' {
        s.len() - 1
    } else {
        last_dot(s.drop_last())
    }
}

impl Format {
    /// Cuts a path short at its last `.`, so that a format-specific
    /// extension can be appended; a path without a `.` is returned whole.
    pub fn remove_extension_from_path(path: &str) -> (r: String)
        ensures
            last_dot(path@) >= 0 ==> r@ == path@.take(last_dot(path@)),
            last_dot(path@) < 0 ==> r@ == path@,
    {
        let n = s_len(path);
        let mut i: usize = n;
        proof {
            assert(path@.take(n as int) =~= path@);
        }
        while i > 0
            invariant
                i <= n,
                n == path@.len(),
                last_dot(path@) == last_dot(path@.take(i as int)),
            decreases i,
        {
            let c = path.get_char(i - 1);
            proof {
                assert(path@.take(i as int).last() == path@[i - 1]);
                assert(path@.take(i as int).drop_last() =~= path@.take(i - 1));
            }
            if c == '.' {
                proof {
                    assert(last_dot(path@) == i - 1);
                }
                let prefix = path.substring_char(0, i - 1);
                let r = prefix.to_owned();
                proof {
                    assert(r@ =~= path@.take(last_dot(path@)));
                }
                return r;
            }
            i = i - 1;
        }
        proof {
            assert(path@.take(0) =~= Seq::<char>::empty());
            assert(last_dot(path@) < 0);
        }
        path.to_owned()
    }
}

} // verus!
