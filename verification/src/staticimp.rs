//! Entry processing: validating, transforming, and expanding entries (sets
//! of named text fields) into storage-ready records.
//!
//! An incoming entry becomes a [`NewEntry`], which carries the fields
//! together with the request context that placeholder templates may refer
//! to. [`NewEntry::process_fields`] runs the three-stage pipeline
//! (validate, generate, transform) over it, and [`EntryConfig::render`]
//! expands the entry-type configuration into a [`GitEntry`], the record a
//! storage backend consumes.
//!
//! Placeholder templates are rendered with [`crate::rendertemplate`], with
//! the entry itself as the resolver; field transforms use digest and slug
//! routines of outside crates, stated here as named results, and the
//! [`crate::base85`] codec.

use crate::base85;
use crate::rendertemplate::{render_str, render_with, Render};
use std::fmt::Write;
use vstd::prelude::*;
use vstd::utf8::{decode_utf8, encode_utf8, valid_utf8};

verus! {

/// Whether two string slices hold the same characters.
pub fn str_eq(a: &str, b: &str) -> (r: bool)
    ensures
        r == (a@ == b@),
{
    let n = a.unicode_len();
    let m = b.unicode_len();
    if n != m {
        return false;
    }
    let mut i: usize = 0;
    while i < n
        invariant
            i <= n,
            n == a@.len(),
            n == b@.len(),
            forall|j: int| 0 <= j < i ==> a@[j] == b@[j],
        decreases n - i,
    {
        if a.get_char(i) != b.get_char(i) {
            return false;
        }
        i = i + 1;
    }
    proof {
        assert(a@ =~= b@);
    }
    true
}

/// The character-level view of a list of string pairs.
pub open spec fn pairs_view(s: Seq<(String, String)>) -> Seq<(Seq<char>, Seq<char>)> {
    Seq::new(s.len(), |i: int| (s[i].0@, s[i].1@))
}

/// Module error: what the pipeline reports when an entry is rejected or a
/// stage cannot complete.
#[derive(Debug)]
pub enum ImpError {
    /// The caller's data was rejected: a context message and an explanation.
    BadRequest(String, String),
    /// The environment failed the request: a context message and an
    /// explanation.
    InternalError(String, String),
    /// Decoded bytes were not valid UTF-8 text.
    FromUtf8Error(String),
    /// Diagnostic short-circuit: carries the fully rendered output instead
    /// of an error.
    Debug(String),
}

/// Module result; all fallible pipeline operations report an [`ImpError`].
pub type ImpResult<R> = Result<R, ImpError>;

/// The message an error displays, with a non-empty context joined by ": ".
pub open spec fn message_of(e: ImpError) -> Seq<char> {
    match e {
        ImpError::BadRequest(s, m) => if s@.len() == 0 {
            m@
        } else {
            s@ + ": "@ + m@
        },
        ImpError::InternalError(s, m) => if s@.len() == 0 {
            m@
        } else {
            s@ + ": "@ + m@
        },
        ImpError::FromUtf8Error(m) => m@,
        ImpError::Debug(m) => m@,
    }
}

impl ImpError {
    /// Wraps already-rendered output for diagnostic return.
    pub fn debug(val: String) -> (r: Self)
        ensures
            r == ImpError::Debug(val),
    {
        ImpError::Debug(val)
    }

    /// The error's message, as [`message_of`] says.
    pub fn message(&self) -> (m: String)
        ensures
            m@ == message_of(*self),
    {
        match self {
            ImpError::BadRequest(s, e) => if s.as_str().is_empty() {
                e.clone()
            } else {
                s.clone().concat(": ").concat(e.as_str())
            },
            ImpError::InternalError(s, e) => if s.as_str().is_empty() {
                e.clone()
            } else {
                s.clone().concat(": ").concat(e.as_str())
            },
            ImpError::FromUtf8Error(e) => e.clone(),
            ImpError::Debug(s) => s.clone(),
        }
    }

    /// The HTTP status code the error maps to: caller-data errors are 400,
    /// environment errors 500, and the diagnostic short-circuit 200.
    pub fn status_code(&self) -> (c: u16)
        ensures
            c == match *self {
                ImpError::BadRequest(_, _) => 400u16,
                ImpError::InternalError(_, _) => 500u16,
                ImpError::FromUtf8Error(_) => 500u16,
                ImpError::Debug(_) => 200u16,
            },
    {
        match self {
            ImpError::BadRequest(_, _) => 400,
            ImpError::InternalError(_, _) => 500,
            ImpError::FromUtf8Error(_) => 500,
            ImpError::Debug(_) => 200,
        }
    }
}

/// First-match lookup in a character-level field map.
pub open spec fn field_lookup(
    pairs: Seq<(Seq<char>, Seq<char>)>,
    name: Seq<char>,
) -> Option<Seq<char>>
    decreases pairs.len(),
{
    if pairs.len() == 0 {
        None
    } else if pairs[0].0 == name {
        Some(pairs[0].1)
    } else {
        field_lookup(pairs.drop_first(), name)
    }
}

/// A field map with `key` set to `value`: the first pair with that key is
/// replaced, or the pair is appended if the key is new.
pub open spec fn field_upsert(
    pairs: Seq<(Seq<char>, Seq<char>)>,
    key: Seq<char>,
    value: Seq<char>,
) -> Seq<(Seq<char>, Seq<char>)>
    decreases pairs.len(),
{
    if pairs.len() == 0 {
        seq![(key, value)]
    } else if pairs[0].0 == key {
        seq![(key, value)] + pairs.drop_first()
    } else {
        seq![pairs[0]] + field_upsert(pairs.drop_first(), key, value)
    }
}

/// Setting a key makes it present, with the new value.
pub proof fn lemma_upsert_found(pairs: Seq<(Seq<char>, Seq<char>)>, key: Seq<char>, value: Seq<char>)
    ensures
        field_lookup(field_upsert(pairs, key, value), key) == Some(value),
    decreases pairs.len(),
{
    if pairs.len() == 0 {
        assert(field_upsert(pairs, key, value) == seq![(key, value)]);
    } else if pairs[0].0 == key {
        let up = seq![(key, value)] + pairs.drop_first();
        assert(up[0] == (key, value));
    } else {
        let up = seq![pairs[0]] + field_upsert(pairs.drop_first(), key, value);
        assert(up[0] == pairs[0]);
        assert(up.drop_first() =~= field_upsert(pairs.drop_first(), key, value));
        lemma_upsert_found(pairs.drop_first(), key, value);
    }
}

/// Setting one key leaves every other key's lookup unchanged.
pub proof fn lemma_upsert_other(
    pairs: Seq<(Seq<char>, Seq<char>)>,
    key: Seq<char>,
    value: Seq<char>,
    other: Seq<char>,
)
    requires
        other != key,
    ensures
        field_lookup(field_upsert(pairs, key, value), other) == field_lookup(pairs, other),
    decreases pairs.len(),
{
    if pairs.len() == 0 {
        assert(field_upsert(pairs, key, value) == seq![(key, value)]);
        assert(seq![(key, value)].drop_first() =~= Seq::<(Seq<char>, Seq<char>)>::empty());
        assert(seq![(key, value)][0] == (key, value));
        assert(field_lookup(Seq::<(Seq<char>, Seq<char>)>::empty(), other) is None);
        assert(field_lookup(seq![(key, value)], other) is None);
    } else if pairs[0].0 == key {
        let up = seq![(key, value)] + pairs.drop_first();
        assert(up[0] == (key, value));
        assert(up.drop_first() =~= pairs.drop_first());
    } else {
        let up = seq![pairs[0]] + field_upsert(pairs.drop_first(), key, value);
        assert(up[0] == pairs[0]);
        assert(up.drop_first() =~= field_upsert(pairs.drop_first(), key, value));
        lemma_upsert_other(pairs.drop_first(), key, value, other);
    }
}

/// Whether `name` is one of the given names.
pub open spec fn name_in(names: Seq<String>, name: Seq<char>) -> bool {
    exists|j: int| 0 <= j < names.len() && names[j]@ == name
}

/// The caller-submitted set of named text fields of an entry, in order.
#[derive(Clone, Debug)]
pub struct EntryFields {
    /// The fields as key-value pairs, in insertion order.
    fields: Vec<(String, String)>,
}

impl View for EntryFields {
    type V = Seq<(Seq<char>, Seq<char>)>;

    closed spec fn view(&self) -> Seq<(Seq<char>, Seq<char>)> {
        pairs_view(self.fields@)
    }
}

impl EntryFields {
    /// Fields from a list of key-value pairs.
    pub fn new(fields: Vec<(String, String)>) -> (r: Self)
        ensures
            r@ == pairs_view(fields@),
    {
        EntryFields { fields }
    }

    /// The fields as key-value pairs, in order.
    pub fn pairs(&self) -> (r: &Vec<(String, String)>)
        ensures
            pairs_view(r@) == self@,
    {
        &self.fields
    }

    /// How many fields the entry has.
    pub fn len(&self) -> (n: usize)
        ensures
            n == self@.len(),
    {
        self.fields.len()
    }

    /// The value of the first field named `name`, if any.
    pub fn get(&self, name: &str) -> (r: Option<&String>)
        ensures
            match r {
                Some(v) => field_lookup(self@, name@) == Some(v@),
                None => field_lookup(self@, name@) is None,
            },
    {
        let n = self.fields.len();
        let mut i: usize = 0;
        proof {
            assert(self@.skip(0) =~= self@);
        }
        while i < n
            invariant
                i <= n,
                n == self.fields@.len(),
                self@.len() == n,
                field_lookup(self@, name@) == field_lookup(self@.skip(i as int), name@),
            decreases n - i,
        {
            proof {
                assert(self@.skip(i as int)[0] == self@[i as int]);
                assert(self@.skip(i as int).drop_first() =~= self@.skip(i + 1));
            }
            if str_eq(self.fields[i].0.as_str(), name) {
                return Some(&self.fields[i].1);
            }
            i = i + 1;
        }
        proof {
            assert(self@.skip(n as int).len() == 0);
        }
        None
    }

    /// Sets `key` to `value`: replaces the first field with that key, or
    /// appends the pair if the key is new.
    pub fn set(&mut self, key: String, value: String)
        ensures
            final(self)@ == field_upsert(old(self)@, key@, value@),
    {
        let ghost whole = self@;
        let n = self.fields.len();
        let mut i: usize = 0;
        proof {
            assert(whole.skip(0) =~= whole);
            assert(whole.take(0) =~= Seq::<(Seq<char>, Seq<char>)>::empty());
        }
        while i < n
            invariant
                i <= n,
                n == self.fields@.len(),
                self@ == whole,
                old(self)@ == whole,
                whole.len() == n,
                field_upsert(whole, key@, value@) == whole.take(i as int) + field_upsert(
                    whole.skip(i as int),
                    key@,
                    value@,
                ),
                forall|j: int| 0 <= j < i ==> whole[j].0 != key@,
            decreases n - i,
        {
            proof {
                assert(whole.skip(i as int)[0] == whole[i as int]);
                assert(whole.skip(i as int).drop_first() =~= whole.skip(i + 1));
            }
            if str_eq(self.fields[i].0.as_str(), key.as_str()) {
                proof {
                    assert(field_upsert(whole.skip(i as int), key@, value@) == seq![
                        (key@, value@),
                    ] + whole.skip(i + 1));
                    assert(whole.take(i as int) + (seq![(key@, value@)] + whole.skip(i + 1))
                        =~= whole.update(i as int, (key@, value@)));
                }
                proof {
                    assert(field_upsert(whole, key@, value@) == whole.take(i as int) + (seq![
                        (key@, value@),
                    ] + whole.skip(i + 1)));
                    assert(field_upsert(whole, key@, value@) =~= whole.update(
                        i as int,
                        (key@, value@),
                    ));
                }
                self.fields.set(i, (key, value));
                proof {
                    assert(self@ =~= whole.update(i as int, (key@, value@)));
                }
                return ;
            }
            proof {
                assert(field_upsert(whole.skip(i as int), key@, value@) == seq![
                    whole[i as int],
                ] + field_upsert(whole.skip(i + 1), key@, value@));
                assert(whole.take(i as int) + (seq![whole[i as int]] + field_upsert(
                    whole.skip(i + 1),
                    key@,
                    value@,
                )) =~= whole.take(i + 1) + field_upsert(whole.skip(i + 1), key@, value@));
            }
            i = i + 1;
        }
        proof {
            assert(whole.skip(n as int).len() == 0);
            assert(field_upsert(whole.skip(n as int), key@, value@) == seq![(key@, value@)]);
            assert(whole.take(n as int) =~= whole);
        }
        self.fields.push((key, value));
        proof {
            assert(self@ =~= whole + seq![(key@, value@)]);
            assert(whole + seq![(key@, value@)] =~= whole.take(n as int) + field_upsert(
                whole.skip(n as int),
                key@,
                value@,
            ));
        }
    }
}

/// A field to generate and add to an entry during processing.
///
/// Currently a generated field is a placeholder template rendered against
/// the entry.
#[derive(Clone, Debug)]
pub enum GeneratedField {
    /// A template for the generated value.
    Value(String),
}

/// The template text of a generated field.
pub open spec fn generator_template(g: GeneratedField) -> Seq<char> {
    match g {
        GeneratedField::Value(t) => t@,
    }
}

/// A transformation to apply to one field.
#[derive(Clone, Debug)]
pub struct FieldTransform {
    /// The field the transform applies to.
    pub field: String,
    /// The rewrite to apply.
    pub transform: FieldTransformType,
}

/// The field rewrites an entry type may configure.
#[derive(Clone, Copy, Debug)]
pub enum FieldTransformType {
    /// Lowercase hyphenated slug.
    Slugify,
    /// MD5 digest, as 32 lowercase hex characters.
    Md5,
    /// SHA-256 digest, as 64 lowercase hex characters.
    Sha256,
    /// Encode the field's text as base-85.
    ToBase85,
    /// Decode the field's base-85 text; failing UTF-8 is an error.
    FromBase85,
}

/// Field validation and mutation rules for an entry type.
#[derive(Clone, Debug)]
pub struct FieldConfig {
    /// Names a caller may submit.
    pub allowed: Vec<String>,
    /// Names a caller must submit; meaningful when a subset of `allowed`.
    pub required: Vec<String>,
    /// Fields to generate and add after validation, in order.
    pub extra: Vec<(String, GeneratedField)>,
    /// Transformations to apply after generation, in order.
    pub transforms: Vec<FieldTransform>,
}

impl FieldConfig {
    /// A configuration with no allowed or required names, no generated
    /// fields and no transforms.
    pub fn new() -> (r: Self)
        ensures
            r.allowed@.len() == 0,
            r.required@.len() == 0,
            r.extra@.len() == 0,
            r.transforms@.len() == 0,
    {
        FieldConfig { allowed: Vec::new(), required: Vec::new(), extra: Vec::new(), transforms: Vec::new() }
    }
}

/// Whether some required name is absent from the fields.
pub open spec fn missing_required(
    pairs: Seq<(Seq<char>, Seq<char>)>,
    required: Seq<String>,
) -> bool {
    exists|j: int| 0 <= j < required.len() && field_lookup(pairs, required[j]@) is None
}

/// Whether some present field name is not allowed.
pub open spec fn has_unknown(pairs: Seq<(Seq<char>, Seq<char>)>, allowed: Seq<String>) -> bool {
    exists|j: int| 0 <= j < pairs.len() && !name_in(allowed, pairs[j].0)
}

/// Whether `name` is one of `names`, by character comparison.
fn name_in_exec(names: &Vec<String>, name: &str) -> (r: bool)
    ensures
        r == name_in(names@, name@),
{
    let n = names.len();
    let mut i: usize = 0;
    while i < n
        invariant
            i <= n,
            n == names@.len(),
            forall|j: int| 0 <= j < i ==> names@[j]@ != name@,
        decreases n - i,
    {
        if str_eq(names[i].as_str(), name) {
            return true;
        }
        i = i + 1;
    }
    false
}

/// What the slug transform returns for given text.
pub uninterp spec fn slug_of(s: Seq<char>) -> Seq<char>;

/// What the MD5 transform returns for given text.
pub uninterp spec fn md5_hex_of(s: Seq<char>) -> Seq<char>;

/// What the SHA-256 transform returns for given text.
pub uninterp spec fn sha256_hex_of(s: Seq<char>) -> Seq<char>;

/// A character a slug may contain: a lowercase letter, a digit, or a
/// hyphen.
pub open spec fn is_slug_char(c: char) -> bool {
    let ci = c as int;
    (97 <= ci <= 122) || (48 <= ci <= 57) || c == '-'
}

/// A lowercase hexadecimal digit.
pub open spec fn is_hex_lower(c: char) -> bool {
    let ci = c as int;
    (48 <= ci <= 57) || (97 <= ci <= 102)
}

/// Relies on `slug::slugify`: the result is a function of the input text
/// alone and consists of lowercase letters, digits and hyphens.
#[verifier::external_body]
fn slugify(s: &str) -> (r: String)
    ensures
        r@ == slug_of(s@),
        forall|i: int| 0 <= i < r@.len() ==> is_slug_char(#[trigger] r@[i]),
{
    slug::slugify(s)
}

/// Relies on `md5::compute` and the digest's lowercase-hex formatting: two
/// hex digits per digest byte, 32 in all, a function of the input alone.
#[verifier::external_body]
fn md5_hex(s: &str) -> (r: String)
    ensures
        r@ == md5_hex_of(s@),
        r@.len() == 32,
        forall|i: int| 0 <= i < r@.len() ==> is_hex_lower(#[trigger] r@[i]),
{
    format!("{:x}", md5::compute(s))
}

/// Relies on `sha256::digest`: 64 lowercase hex digits, a function of the
/// input alone.
#[verifier::external_body]
fn sha256_hex(s: &str) -> (r: String)
    ensures
        r@ == sha256_hex_of(s@),
        r@.len() == 64,
        forall|i: int| 0 <= i < r@.len() ==> is_hex_lower(#[trigger] r@[i]),
{
    sha256::digest(s)
}

/// Relies on `String::from_utf8`: succeeds exactly on valid UTF-8, and the
/// result's characters are the decoded scalar values.
#[verifier::external_body]
fn string_from_utf8(bytes: Vec<u8>) -> (r: Option<String>)
    ensures
        r is Some <==> valid_utf8(bytes@),
        match r {
            Some(s) => s@ == decode_utf8(bytes@),
            None => true,
        },
{
    String::from_utf8(bytes).ok()
}

/// What one transform makes of a field value, or nothing where the
/// transform rejects it (base-85 decoding that is not UTF-8 text).
pub open spec fn transform_value(t: FieldTransformType, v: Seq<char>) -> Option<Seq<char>> {
    match t {
        FieldTransformType::Slugify => Some(slug_of(v)),
        FieldTransformType::Md5 => Some(md5_hex_of(v)),
        FieldTransformType::Sha256 => Some(sha256_hex_of(v)),
        FieldTransformType::ToBase85 => Some(base85::encode_spec(encode_utf8(v))),
        FieldTransformType::FromBase85 => {
            let bs = base85::decode_spec(v);
            if valid_utf8(bs) {
                Some(decode_utf8(bs))
            } else {
                None
            }
        },
    }
}

/// Applies one transform to a field value, exactly as [`transform_value`]
/// says; only base-85 decoding can fail, when the bytes are not UTF-8.
pub fn apply_transform(t: FieldTransformType, v: &str) -> (r: ImpResult<String>)
    ensures
        match transform_value(t, v@) {
            Some(s) => r matches Ok(o) && o@ == s,
            None => r matches Err(e) && e is FromUtf8Error,
        },
        t is Md5 ==> (r matches Ok(o) && o@.len() == 32 && forall|i: int|
            0 <= i < o@.len() ==> is_hex_lower(#[trigger] o@[i])),
        t is Sha256 ==> (r matches Ok(o) && o@.len() == 64 && forall|i: int|
            0 <= i < o@.len() ==> is_hex_lower(#[trigger] o@[i])),
        t is Slugify ==> (r matches Ok(o) && forall|i: int|
            0 <= i < o@.len() ==> is_slug_char(#[trigger] o@[i])),
{
    match t {
        FieldTransformType::Slugify => Ok(slugify(v)),
        FieldTransformType::Md5 => Ok(md5_hex(v)),
        FieldTransformType::Sha256 => Ok(sha256_hex(v)),
        FieldTransformType::ToBase85 => Ok(base85::encode(v.as_bytes())),
        FieldTransformType::FromBase85 => {
            let bytes = base85::decode(v);
            match string_from_utf8(bytes) {
                Some(s) => Ok(s),
                None => Err(
                    ImpError::FromUtf8Error(
                        String::from_str("decoded base85 is not valid utf-8"),
                    ),
                ),
            }
        },
    }
}

/// What serializing string pairs as a JSON object returns (keys sorted by
/// the underlying map).
pub uninterp spec fn json_of_pairs(pairs: Seq<(Seq<char>, Seq<char>)>) -> Seq<char>;

/// What pretty-printing string pairs as a JSON object returns.
pub uninterp spec fn json_pretty_of_pairs(pairs: Seq<(Seq<char>, Seq<char>)>) -> Seq<char>;

/// What serializing string pairs as a YAML mapping returns, if anything.
pub uninterp spec fn yaml_of_pairs(pairs: Seq<(Seq<char>, Seq<char>)>) -> Option<Seq<char>>;

/// Relies on `serde_json::to_string` on a string-keyed map: it succeeds
/// (errors need non-string keys or a failing serializer), and the output is
/// a function of the entries alone.
#[verifier::external_body]
fn json_pairs(pairs: &Vec<(String, String)>) -> (r: String)
    ensures
        r@ == json_of_pairs(pairs_view(pairs@)),
{
    let map: std::collections::BTreeMap<String, String> = pairs.iter().cloned().collect();
    serde_json::to_string(&map).unwrap()
}

/// Relies on `serde_json::to_string_pretty` on a string-keyed map, as
/// [`json_pairs`] relies on `to_string`.
#[verifier::external_body]
fn json_pairs_pretty(pairs: &Vec<(String, String)>) -> (r: String)
    ensures
        r@ == json_pretty_of_pairs(pairs_view(pairs@)),
{
    let map: std::collections::BTreeMap<String, String> = pairs.iter().cloned().collect();
    serde_json::to_string_pretty(&map).unwrap()
}

/// Relies on `serde_yaml::to_string` on a string-keyed map: whether it
/// succeeds and what it returns are functions of the entries alone.
#[verifier::external_body]
fn yaml_pairs(pairs: &Vec<(String, String)>) -> (r: Option<String>)
    ensures
        match r {
            Some(s) => yaml_of_pairs(pairs_view(pairs@)) == Some(s@),
            None => yaml_of_pairs(pairs_view(pairs@)) is None,
        },
{
    let map: std::collections::BTreeMap<String, String> = pairs.iter().cloned().collect();
    serde_yaml::to_string(&map).ok()
}

/// Serialization format for stored entries and project configuration.
#[derive(Clone, Copy, Debug)]
pub enum SerializationFormat {
    /// JSON, through serde_json.
    Json,
    /// YAML, through serde_yaml.
    Yaml,
}

impl Default for SerializationFormat {
    /// YAML is the default format.
    fn default() -> (r: Self)
        ensures
            r is Yaml,
    {
        SerializationFormat::Yaml
    }
}

/// What serializing a field map in the given format returns, if anything.
pub open spec fn serialize_result(
    f: SerializationFormat,
    pairs: Seq<(Seq<char>, Seq<char>)>,
) -> Option<Seq<char>> {
    match f {
        SerializationFormat::Json => Some(json_of_pairs(pairs)),
        SerializationFormat::Yaml => yaml_of_pairs(pairs),
    }
}

/// What pretty-serializing a field map in the given format returns, if
/// anything (YAML has no separate pretty form).
pub open spec fn serialize_pretty_result(
    f: SerializationFormat,
    pairs: Seq<(Seq<char>, Seq<char>)>,
) -> Option<Seq<char>> {
    match f {
        SerializationFormat::Json => Some(json_pretty_of_pairs(pairs)),
        SerializationFormat::Yaml => yaml_of_pairs(pairs),
    }
}

/// Whether a path names a JSON file: it ends in ".json".
pub open spec fn is_json_path(p: Seq<char>) -> bool {
    p.len() >= 5 && p.skip(p.len() - 5) == ".json"@
}

impl SerializationFormat {
    /// Serializes an entry's fields, exactly as [`serialize_result`] says;
    /// a YAML failure is reported as a rejected output.
    pub fn serialize(&self, fields: &EntryFields) -> (r: ImpResult<String>)
        ensures
            match serialize_result(*self, fields@) {
                Some(s) => r matches Ok(o) && o@ == s,
                None => r matches Err(e) && e matches ImpError::BadRequest(_, m) && m@
                    == "Bad yaml output"@,
            },
    {
        match self {
            SerializationFormat::Json => Ok(json_pairs(fields.pairs())),
            SerializationFormat::Yaml => match yaml_pairs(fields.pairs()) {
                Some(s) => Ok(s),
                None => Err(
                    ImpError::BadRequest(String::new(), String::from_str("Bad yaml output")),
                ),
            },
        }
    }

    /// Serializes an entry's fields for human reading, exactly as
    /// [`serialize_pretty_result`] says.
    pub fn serialize_pretty(&self, fields: &EntryFields) -> (r: ImpResult<String>)
        ensures
            match serialize_pretty_result(*self, fields@) {
                Some(s) => r matches Ok(o) && o@ == s,
                None => r matches Err(e) && e matches ImpError::BadRequest(_, m) && m@
                    == "Bad yaml output"@,
            },
    {
        match self {
            SerializationFormat::Json => Ok(json_pairs_pretty(fields.pairs())),
            SerializationFormat::Yaml => match yaml_pairs(fields.pairs()) {
                Some(s) => Ok(s),
                None => Err(
                    ImpError::BadRequest(String::new(), String::from_str("Bad yaml output")),
                ),
            },
        }
    }

    /// The format a path implies: ".json" files are JSON, everything else
    /// defaults to YAML.
    pub fn from_path(path: &str) -> (r: Self)
        ensures
            r is Json <==> is_json_path(path@),
    {
        let n = path.unicode_len();
        if n >= 5 && str_eq(path.substring_char(n - 5, n), ".json") {
            SerializationFormat::Json
        } else {
            SerializationFormat::Yaml
        }
    }
}

impl EntryFields {
    /// The fields serialized in the given format, as bytes.
    pub fn serialize(&self, format: SerializationFormat) -> (r: ImpResult<Vec<u8>>)
        ensures
            match serialize_result(format, self@) {
                Some(s) => r matches Ok(b) && b@ == encode_utf8(s),
                None => r matches Err(e) && e matches ImpError::BadRequest(_, m) && m@
                    == "Bad yaml output"@,
            },
    {
        match format.serialize(self) {
            Ok(s) => Ok(s.as_str().as_bytes_vec()),
            Err(e) => Err(e),
        }
    }
}

/// Relies on `uuid::Uuid::new_v4` and its display form: a fresh random
/// UUID in hyphenated form, 36 characters; nothing else is promised of a
/// random value.
#[verifier::external_body]
fn new_uuid() -> (r: String)
    ensures
        r@.len() == 36,
{
    uuid::Uuid::new_v4().to_string()
}

/// Relies on `chrono::Utc::now`: the current time as Unix seconds and
/// subsecond nanoseconds (below two billion, leap seconds included);
/// nothing else is promised of the clock.
#[verifier::external_body]
fn now_parts() -> (r: (i64, u32))
    ensures
        r.1 < 2000000000,
{
    let t = chrono::Utc::now();
    (t.timestamp(), t.timestamp_subsec_nanos())
}

/// What formatting a creation time with a format string returns, if the
/// timestamp is representable and the format string is accepted.
pub uninterp spec fn ts_format(secs: int, nanos: int, fmt: Seq<char>) -> Option<Seq<char>>;

/// Relies on `chrono::DateTime::from_timestamp` and strftime formatting:
/// the result is a function of the timestamp and the format string alone;
/// an out-of-range timestamp or a rejected format string yields nothing.
#[verifier::external_body]
fn format_timestamp(secs: i64, nanos: u32, fmt: &str) -> (r: Option<String>)
    ensures
        match r {
            Some(s) => ts_format(secs as int, nanos as int, fmt@) == Some(s@),
            None => ts_format(secs as int, nanos as int, fmt@) is None,
        },
{
    match chrono::DateTime::<chrono::Utc>::from_timestamp(secs, nanos) {
        Some(dt) => {
            let mut out = String::new();
            match write!(out, "{}", dt.format(fmt)) {
                Ok(()) => Some(out),
                Err(_) => None,
            }
        },
        None => None,
    }
}

/// The value of the first pair named `name`, if any.
fn pairs_get<'a>(pairs: &'a Vec<(String, String)>, name: &str) -> (r: Option<&'a String>)
    ensures
        match r {
            Some(v) => field_lookup(pairs_view(pairs@), name@) == Some(v@),
            None => field_lookup(pairs_view(pairs@), name@) is None,
        },
{
    let ghost whole = pairs_view(pairs@);
    let n = pairs.len();
    let mut i: usize = 0;
    proof {
        assert(whole.skip(0) =~= whole);
    }
    while i < n
        invariant
            i <= n,
            n == pairs@.len(),
            whole == pairs_view(pairs@),
            whole.len() == n,
            field_lookup(whole, name@) == field_lookup(whole.skip(i as int), name@),
        decreases n - i,
    {
        proof {
            assert(whole.skip(i as int)[0] == whole[i as int]);
            assert(whole.skip(i as int).drop_first() =~= whole.skip(i + 1));
        }
        if str_eq(pairs[i].0.as_str(), name) {
            return Some(&pairs[i].1);
        }
        i = i + 1;
    }
    proof {
        assert(whole.skip(n as int).len() == 0);
    }
    None
}

/// The specification-level state of an in-flight entry: the fields plus the
/// request context placeholders may refer to.
pub struct NewEntryView {
    /// The entry's unique id.
    pub uid: Seq<char>,
    /// Creation time, Unix seconds.
    pub timestamp_secs: int,
    /// Creation time, subsecond nanoseconds.
    pub timestamp_nanos: int,
    /// The creation time pre-rendered with the configured format.
    pub timestamp_str: Seq<char>,
    /// The target project id.
    pub project_id: Seq<char>,
    /// The target branch.
    pub branch: Seq<char>,
    /// The entry's field map.
    pub fields: Seq<(Seq<char>, Seq<char>)>,
    /// The request's query parameters.
    pub params: Seq<(Seq<char>, Seq<char>)>,
}

/// An entry in flight: the caller's fields plus everything placeholder
/// templates may refer to. Created once per request and owned by it.
pub struct NewEntry {
    /// The entry's unique id.
    uid: String,
    /// Creation time, Unix seconds.
    timestamp_secs: i64,
    /// Creation time, subsecond nanoseconds.
    timestamp_nanos: u32,
    /// The creation time pre-rendered with the configured format.
    timestamp_str: String,
    /// The target project id.
    project_id: String,
    /// The target branch.
    branch: String,
    /// The entry's field map.
    fields: EntryFields,
    /// The request's query parameters.
    params: Vec<(String, String)>,
}

impl View for NewEntry {
    type V = NewEntryView;

    closed spec fn view(&self) -> NewEntryView {
        NewEntryView {
            uid: self.uid@,
            timestamp_secs: self.timestamp_secs as int,
            timestamp_nanos: self.timestamp_nanos as int,
            timestamp_str: self.timestamp_str@,
            project_id: self.project_id@,
            branch: self.branch@,
            fields: self.fields@,
            params: pairs_view(self.params@),
        }
    }
}

/// How an entry resolves a placeholder name:
///
/// 1. `@id`, `@timestamp`, `@date:<fmt>` and names starting with `@branch`
///    resolve to the id, the pre-rendered creation time, the re-formatted
///    creation time and the target branch; every other `@` name collapses
///    to the empty string.
/// 2. A name with exactly one `.` looks its right side up in the field map
///    (`fields.`) or the request parameters (`params.`); an absent key, or
///    any other left side, is unresolved.
/// 3. Any other shape is unresolved.
pub open spec fn entry_resolve(e: NewEntryView, name: Seq<char>) -> Option<Seq<char>> {
    if name.len() > 0 && name[0] == '@' {
        if name == "@id"@ {
            Some(e.uid)
        } else if name == "@timestamp"@ {
            Some(e.timestamp_str)
        } else if name.len() >= 6 && name.subrange(0, 6) == "@date:"@ {
            match ts_format(e.timestamp_secs, e.timestamp_nanos, name.skip(6)) {
                Some(s) => Some(s),
                None => Some(Seq::empty()),
            }
        } else if name.len() >= 7 && name.subrange(0, 7) == "@branch"@ {
            Some(e.branch)
        } else {
            Some(Seq::empty())
        }
    } else {
        match crate::rendertemplate::find_char(name, '.', 0) {
            Some(i) => {
                if crate::rendertemplate::find_char(name, '.', i + 1) is Some {
                    None
                } else {
                    let lhs = name.subrange(0, i);
                    let rhs = name.skip(i + 1);
                    if lhs == "fields"@ {
                        field_lookup(e.fields, rhs)
                    } else if lhs == "params"@ {
                        field_lookup(e.params, rhs)
                    } else {
                        None
                    }
                }
            },
            None => None,
        }
    }
}

/// An entry's resolution function, over its specification-level state.
pub open spec fn entry_resolver(e: NewEntryView) -> spec_fn(Seq<char>) -> Option<Seq<char>> {
    |name: Seq<char>| entry_resolve(e, name)
}

/// What rendering a template against an entry state returns.
pub open spec fn render_entry(e: NewEntryView, t: Seq<char>) -> Seq<char> {
    render_with(entry_resolver(e), t)
}

/// Entries resolve placeholders as [`entry_resolve`] says.
impl Render for NewEntry {
    open spec fn resolve_spec(&self, name: Seq<char>) -> Option<Seq<char>> {
        entry_resolve(self@, name)
    }

    fn render(&self, name: &str) -> (r: Option<String>) {
        let n = name.unicode_len();
        if n > 0 && name.get_char(0) == '@' {
            if str_eq(name, "@id") {
                Some(self.uid.clone())
            } else if str_eq(name, "@timestamp") {
                Some(self.timestamp_str.clone())
            } else if n >= 6 && str_eq(name.substring_char(0, 6), "@date:") {
                let fmt = name.substring_char(6, n);
                proof {
                    assert(fmt@ =~= name@.skip(6));
                }
                match format_timestamp(self.timestamp_secs, self.timestamp_nanos, fmt) {
                    Some(s) => Some(s),
                    None => {
                        proof {
                            reveal_strlit("");
                        }
                        let empty = String::new();
                        proof {
                            assert(empty@ =~= Seq::<char>::empty());
                        }
                        Some(empty)
                    },
                }
            } else if n >= 7 && str_eq(name.substring_char(0, 7), "@branch") {
                Some(self.branch.clone())
            } else {
                let empty = String::new();
                proof {
                    assert(empty@ =~= Seq::<char>::empty());
                }
                Some(empty)
            }
        } else {
            match crate::rendertemplate::find_char_at(name, '.', 0) {
                Some(i) => {
                    proof {
                        crate::rendertemplate::lemma_find_char(name@, '.', 0);
                    }
                    match crate::rendertemplate::find_char_at(name, '.', i + 1) {
                        Some(_) => None,
                        None => {
                            let lhs = name.substring_char(0, i);
                            let rhs = name.substring_char(i + 1, n);
                            proof {
                                crate::rendertemplate::lemma_find_char(name@, '.', 0);
                                assert(rhs@ =~= name@.skip(i + 1));
                            }
                            if str_eq(lhs, "fields") {
                                match self.fields.get(rhs) {
                                    Some(v) => Some(v.clone()),
                                    None => None,
                                }
                            } else if str_eq(lhs, "params") {
                                match pairs_get(&self.params, rhs) {
                                    Some(v) => Some(v.clone()),
                                    None => None,
                                }
                            } else {
                                None
                            }
                        },
                    }
                },
                None => None,
            }
        }
    }
}

/// The entry state after generating the configured extra fields, in order.
///
/// Each template is rendered against the entry as already updated by the
/// generated fields before it, and the result is inserted or overwritten —
/// deliberately without the allowed-names check, since these fields are
/// server-authored.
pub open spec fn generated_fields(
    e: NewEntryView,
    extra: Seq<(String, GeneratedField)>,
) -> NewEntryView
    decreases extra.len(),
{
    if extra.len() == 0 {
        e
    } else {
        let v = render_entry(e, generator_template(extra[0].1));
        let e2 = NewEntryView { fields: field_upsert(e.fields, extra[0].0@, v), ..e };
        generated_fields(e2, extra.drop_first())
    }
}

/// The field map after applying the configured transforms, in order, or
/// nothing once one transform fails. A transform whose field is absent is
/// skipped.
pub open spec fn transformed_fields(
    pairs: Seq<(Seq<char>, Seq<char>)>,
    ts: Seq<FieldTransform>,
) -> Option<Seq<(Seq<char>, Seq<char>)>>
    decreases ts.len(),
{
    if ts.len() == 0 {
        Some(pairs)
    } else {
        match field_lookup(pairs, ts[0].field@) {
            None => transformed_fields(pairs, ts.drop_first()),
            Some(v) => match transform_value(ts[0].transform, v) {
                None => None,
                Some(v2) => transformed_fields(
                    field_upsert(pairs, ts[0].field@, v2),
                    ts.drop_first(),
                ),
            },
        }
    }
}

/// Generated fields are inserted unconditionally: after generation, every
/// configured extra field is present in the entry's field map, whether or
/// not its name is among the allowed names (validation applies to the
/// caller's keys alone, before generation).
pub proof fn lemma_generated_fields_present(
    e: NewEntryView,
    extra: Seq<(String, GeneratedField)>,
)
    ensures
        forall|j: int|
            0 <= j < extra.len() ==> field_lookup(
                generated_fields(e, extra).fields,
                extra[j].0@,
            ) is Some,
    decreases extra.len(),
{
    if extra.len() > 0 {
        let v = render_entry(e, generator_template(extra[0].1));
        let e2 = NewEntryView { fields: field_upsert(e.fields, extra[0].0@, v), ..e };
        lemma_generated_fields_present(e2, extra.drop_first());
        lemma_upsert_found(e.fields, extra[0].0@, v);
        lemma_generated_fields_keeps(e2, extra.drop_first(), extra[0].0@);
        assert(forall|j: int|
            1 <= j < extra.len() ==> extra.drop_first()[j - 1] == extra[j]);
    }
}

/// Generation never removes a field: a key present before generating stays
/// present.
pub proof fn lemma_generated_fields_keeps(
    e: NewEntryView,
    extra: Seq<(String, GeneratedField)>,
    key: Seq<char>,
)
    requires
        field_lookup(e.fields, key) is Some,
    ensures
        field_lookup(generated_fields(e, extra).fields, key) is Some,
    decreases extra.len(),
{
    if extra.len() > 0 {
        let v = render_entry(e, generator_template(extra[0].1));
        let e2 = NewEntryView { fields: field_upsert(e.fields, extra[0].0@, v), ..e };
        if extra[0].0@ == key {
            lemma_upsert_found(e.fields, extra[0].0@, v);
        } else {
            lemma_upsert_other(e.fields, extra[0].0@, v, key);
        }
        lemma_generated_fields_keeps(e2, extra.drop_first(), key);
    }
}

impl GeneratedField {
    /// The generated value for an entry: the template rendered against it.
    pub fn render(&self, entry: &NewEntry) -> (r: ImpResult<String>)
        ensures
            r matches Ok(s) && s@ == render_entry(entry@, generator_template(*self)),
    {
        match self {
            GeneratedField::Value(val) => {
                let s = render_str(val.as_str(), entry);
                proof {
                    assert(crate::rendertemplate::resolver_of(entry) =~= entry_resolver(entry@));
                }
                Ok(s)
            },
        }
    }
}

impl NewEntry {
    /// An entry from its parts; `Config::new_entry` supplies the id and
    /// creation time.
    pub fn new(
        uid: String,
        timestamp_secs: i64,
        timestamp_nanos: u32,
        timestamp_str: String,
        project_id: String,
        branch: String,
        fields: EntryFields,
        params: Vec<(String, String)>,
    ) -> (r: Self)
        ensures
            r@ == (NewEntryView {
                uid: uid@,
                timestamp_secs: timestamp_secs as int,
                timestamp_nanos: timestamp_nanos as int,
                timestamp_str: timestamp_str@,
                project_id: project_id@,
                branch: branch@,
                fields: fields@,
                params: pairs_view(params@),
            }),
    {
        NewEntry {
            uid,
            timestamp_secs,
            timestamp_nanos,
            timestamp_str,
            project_id,
            branch,
            fields,
            params,
        }
    }

    /// The creation time re-formatted with `fmt`, as [`ts_format`] says.
    fn render_date(&self, fmt: &str) -> (r: Option<String>)
        ensures
            match r {
                Some(s) => ts_format(self@.timestamp_secs, self@.timestamp_nanos, fmt@) == Some(
                    s@,
                ),
                None => ts_format(self@.timestamp_secs, self@.timestamp_nanos, fmt@) is None,
            },
    {
        format_timestamp(self.timestamp_secs, self.timestamp_nanos, fmt)
    }

    /// Validation: every required name must be present, and every present
    /// name must be allowed. Runs against the caller-submitted keys only.
    fn validate_fields(self, conf: &FieldConfig) -> (r: ImpResult<Self>)
        ensures
            missing_required(self@.fields, conf.required@) ==> (r matches Err(e) && e matches
                ImpError::BadRequest(_, m) && m@ == "Missing field(s)"@),
            !missing_required(self@.fields, conf.required@) && has_unknown(
                self@.fields,
                conf.allowed@,
            ) ==> (r matches Err(e) && e matches ImpError::BadRequest(_, m) && m@
                == "Unknown field(s)"@),
            !missing_required(self@.fields, conf.required@) && !has_unknown(
                self@.fields,
                conf.allowed@,
            ) ==> (r matches Ok(out) && out == self),
    {
        let nr = conf.required.len();
        let mut i: usize = 0;
        while i < nr
            invariant
                i <= nr,
                nr == conf.required@.len(),
                forall|j: int|
                    0 <= j < i ==> field_lookup(self@.fields, conf.required@[j]@) is Some,
            decreases nr - i,
        {
            match self.fields.get(conf.required[i].as_str()) {
                Some(_) => (),
                None => {
                    proof {
                        assert(missing_required(self@.fields, conf.required@));
                    }
                    return Err(
                        ImpError::BadRequest(
                            String::new(),
                            String::from_str("Missing field(s)"),
                        ),
                    );
                },
            }
            i = i + 1;
        }
        let np = self.fields.len();
        let mut k: usize = 0;
        while k < np
            invariant
                k <= np,
                np == self@.fields.len(),
                !missing_required(self@.fields, conf.required@),
                forall|j: int| 0 <= j < k ==> name_in(conf.allowed@, self@.fields[j].0),
            decreases np - k,
        {
            let pairs = self.fields.pairs();
            let key_ok = name_in_exec(&conf.allowed, pairs[k].0.as_str());
            proof {
                assert(pairs_view(pairs@)[k as int] == self@.fields[k as int]);
            }
            if !key_ok {
                proof {
                    assert(!name_in(conf.allowed@, self@.fields[k as int].0));
                    assert(has_unknown(self@.fields, conf.allowed@));
                }
                return Err(
                    ImpError::BadRequest(String::new(), String::from_str("Unknown field(s)")),
                );
            }
            k = k + 1;
        }
        Ok(self)
    }

    /// Generation: renders each configured extra field against the current
    /// entry and inserts or overwrites it, as [`generated_fields`] says.
    fn generate_fields(self, extra: &Vec<(String, GeneratedField)>) -> (r: ImpResult<Self>)
        ensures
            r matches Ok(out) && out@ == generated_fields(self@, extra@),
    {
        let ghost orig = self@;
        let mut entry = self;
        let n = extra.len();
        let mut i: usize = 0;
        proof {
            assert(extra@.skip(0) =~= extra@);
        }
        while i < n
            invariant
                i <= n,
                n == extra@.len(),
                generated_fields(self@, extra@) == generated_fields(
                    entry@,
                    extra@.skip(i as int),
                ),
            decreases n - i,
        {
            let ghost before = entry@;
            proof {
                assert(extra@.skip(i as int)[0] == extra@[i as int]);
                assert(extra@.skip(i as int).drop_first() =~= extra@.skip(i + 1));
            }
            let val = match extra[i].1.render(&entry) {
                Ok(v) => v,
                Err(e) => {
                    return Err(e);
                },
            };
            let key = extra[i].0.clone();
            entry.fields.set(key, val);
            proof {
                assert(entry@ == (NewEntryView {
                    fields: field_upsert(
                        before.fields,
                        extra@[i as int].0@,
                        render_entry(before, generator_template(extra@[i as int].1)),
                    ),
                    ..before
                }));
            }
            i = i + 1;
        }
        proof {
            assert(extra@.skip(n as int).len() == 0);
        }
        Ok(entry)
    }

    /// Transformation: applies each configured transform, in order, to its
    /// field if present, as [`transformed_fields`] says; the first failing
    /// transform stops processing.
    fn transform_fields(self, transforms: &Vec<FieldTransform>) -> (r: ImpResult<Self>)
        ensures
            match transformed_fields(self@.fields, transforms@) {
                Some(fp) => r matches Ok(out) && out@ == (NewEntryView { fields: fp, ..self@ }),
                None => r matches Err(e) && e is FromUtf8Error,
            },
    {
        let ghost orig = self@;
        let mut entry = self;
        let n = transforms.len();
        let mut i: usize = 0;
        proof {
            assert(transforms@.skip(0) =~= transforms@);
        }
        while i < n
            invariant
                i <= n,
                n == transforms@.len(),
                entry@ == (NewEntryView { fields: entry@.fields, ..self@ }),
                transformed_fields(self@.fields, transforms@) == transformed_fields(
                    entry@.fields,
                    transforms@.skip(i as int),
                ),
            decreases n - i,
        {
            let ghost before = entry@;
            proof {
                assert(transforms@.skip(i as int)[0] == transforms@[i as int]);
                assert(transforms@.skip(i as int).drop_first() =~= transforms@.skip(i + 1));
            }
            let t = &transforms[i];
            let current = match entry.fields.get(t.field.as_str()) {
                Some(v) => Some(v.clone()),
                None => None,
            };
            match current {
                Some(v) => {
                    match apply_transform(t.transform, v.as_str()) {
                        Ok(v2) => {
                            entry.fields.set(t.field.clone(), v2);
                        },
                        Err(e) => {
                            return Err(e);
                        },
                    }
                },
                None => (),
            }
            i = i + 1;
        }
        proof {
            assert(transforms@.skip(n as int).len() == 0);
        }
        Ok(entry)
    }

    /// The three-stage field pipeline, in order and fail-fast: validate the
    /// caller's keys, generate the configured extra fields, then apply the
    /// configured transforms.
    pub fn process_fields(self, conf: &FieldConfig) -> (r: ImpResult<Self>)
        ensures
            missing_required(self@.fields, conf.required@) ==> (r matches Err(e) && e matches
                ImpError::BadRequest(_, m) && m@ == "Missing field(s)"@),
            !missing_required(self@.fields, conf.required@) && has_unknown(
                self@.fields,
                conf.allowed@,
            ) ==> (r matches Err(e) && e matches ImpError::BadRequest(_, m) && m@
                == "Unknown field(s)"@),
            !missing_required(self@.fields, conf.required@) && !has_unknown(
                self@.fields,
                conf.allowed@,
            ) ==> {
                let g = generated_fields(self@, conf.extra@);
                match transformed_fields(g.fields, conf.transforms@) {
                    Some(fp) => r matches Ok(out) && out@ == (NewEntryView { fields: fp, ..g }),
                    None => r matches Err(e) && e is FromUtf8Error,
                }
            },
    {
        match self.validate_fields(conf) {
            Err(e) => Err(e),
            Ok(entry) => match entry.generate_fields(&conf.extra) {
                Err(e) => Err(e),
                Ok(entry) => entry.transform_fields(&conf.transforms),
            },
        }
    }
}

/// reCAPTCHA settings for posted entries; verification itself talks to an
/// outside service and lives with the I/O layer.
#[derive(Clone, Debug)]
pub struct RecaptchaConfig {
    /// Whether third-party verification is required.
    pub enabled: bool,
    /// The site key handed to the widget.
    pub site_key: String,
    /// The (possibly encrypted) secret for the verification call.
    pub secret: String,
}

/// Git-specific entry configuration; every field is a placeholder template
/// rendered against the entry.
#[derive(Clone, Debug)]
pub struct GitEntryConfig {
    /// Directory path to store the entry under.
    pub path: String,
    /// Filename to use for the entry.
    pub filename: String,
    /// Branch to send entries to (or open a merge request for).
    pub branch: String,
    /// Name of the review branch, when review is enabled.
    pub review_branch: String,
    /// Merge request description, when review is enabled.
    pub mr_description: String,
    /// Commit message for the entry.
    pub commit_message: String,
}

impl Default for GitEntryConfig {
    /// The stock templates: entries land under `data/entries` on `main`,
    /// named by their creation time; review branches are named by entry id.
    fn default() -> (r: Self)
        ensures
            r.path@ == "data/entries"@,
            r.filename@ == "entry-{@timestamp}.yml"@,
            r.branch@ == "main"@,
            r.review_branch@ == "staticimp_{@id}"@,
            r.mr_description@
                == "new staticimp entry awaiting approval\n\nMerge the pull request to accept it, or close it"@,
            r.commit_message@ == "New staticimp entry"@,
    {
        GitEntryConfig {
            path: String::from_str("data/entries"),
            filename: String::from_str("entry-{@timestamp}.yml"),
            branch: String::from_str("main"),
            review_branch: String::from_str("staticimp_{@id}"),
            mr_description: String::from_str(
                "new staticimp entry awaiting approval\n\nMerge the pull request to accept it, or close it",
            ),
            commit_message: String::from_str("New staticimp entry"),
        }
    }
}

/// Configuration of one entry type: how its fields are processed and where
/// its records go.
#[derive(Clone, Debug)]
pub struct EntryConfig {
    /// Whether this entry type is disabled.
    pub disabled: bool,
    /// Return the processed record instead of sending it to the backend.
    pub debug: bool,
    /// Field validation and mutation rules.
    pub fields: FieldConfig,
    /// Whether review (moderation) is enabled.
    pub review: bool,
    /// reCAPTCHA configuration.
    pub recaptcha: RecaptchaConfig,
    /// Serialization format for stored entries.
    pub format: SerializationFormat,
    /// Git-specific templates; an entry type without them cannot build a
    /// record.
    pub git: Option<GitEntryConfig>,
}

/// Whether the entry's target branch passes the entry type's branch rule:
/// with a git configuration, the configured branch template must be empty
/// or equal the target branch literally.
pub open spec fn branch_allowed(cfg: Option<GitEntryConfig>, branch: Seq<char>) -> bool {
    match cfg {
        Some(g) => g.branch@.len() == 0 || g.branch@ == branch,
        None => true,
    }
}

impl EntryConfig {
    /// The field processing rules of this entry type.
    pub fn field_config(&self) -> (r: &FieldConfig)
        ensures
            r == &self.fields,
    {
        &self.fields
    }

    /// Whether `branch` passes this entry type's branch rule, as
    /// [`branch_allowed`] says.
    pub fn validate_branch(&self, branch: &str) -> (r: bool)
        ensures
            r == branch_allowed(self.git, branch@),
    {
        match &self.git {
            Some(g) => g.branch.as_str().is_empty() || str_eq(g.branch.as_str(), branch),
            None => true,
        }
    }

    /// Whether third-party verification is required for this entry type.
    pub fn recaptcha_enabled(&self) -> (r: bool)
        ensures
            r == self.recaptcha.enabled,
    {
        self.recaptcha.enabled
    }
}

/// The storage-ready record built from an entry: where to write, what to
/// write, and the review metadata if review is enabled.
#[derive(Clone, Debug)]
pub struct GitEntry {
    /// The project to write to.
    pub project_id: String,
    /// The branch to write to (or to open a merge request against).
    pub branch: String,
    /// The file path to write.
    pub file_path: String,
    /// The serialized entry fields.
    pub content: Vec<u8>,
    /// The commit message.
    pub commit_message: String,
    /// The review branch name; present exactly when review is enabled.
    pub review_branch: Option<String>,
    /// The merge request description; present exactly when review is
    /// enabled.
    pub mr_description: Option<String>,
    /// The serialization format the content was written in.
    pub format: SerializationFormat,
}

/// A directory and a file name joined into one relative path: an absolute
/// file name stands alone, an empty directory adds nothing, and otherwise
/// exactly one `/` separates the two.
pub open spec fn join_path(dir: Seq<char>, file: Seq<char>) -> Seq<char> {
    if file.len() > 0 && file[0] == '/' {
        file
    } else if dir.len() == 0 {
        file
    } else if dir[dir.len() - 1] == '/' {
        dir + file
    } else {
        dir + seq!['/'] + file
    }
}

/// Joins a directory and a file name, as [`join_path`] says.
fn join_path_exec(dir: &str, file: &str) -> (r: String)
    ensures
        r@ == join_path(dir@, file@),
{
    let fl = file.unicode_len();
    let dl = dir.unicode_len();
    if fl > 0 && file.get_char(0) == '/' {
        String::from_str(file)
    } else if dl == 0 {
        String::from_str(file)
    } else if dir.get_char(dl - 1) == '/' {
        String::from_str(dir).concat(file)
    } else {
        proof {
            reveal_strlit("/");
            assert("/"@ =~= seq!['/']);
        }
        String::from_str(dir).concat("/").concat(file)
    }
}

/// What the review table is made of: one two-cell row (name, value) per
/// field, in field order.
pub open spec fn fields_rows(pairs: Seq<(Seq<char>, Seq<char>)>) -> Seq<Seq<Seq<char>>> {
    Seq::new(pairs.len(), |i: int| seq![pairs[i].0, pairs[i].1])
}

/// The character-level view of a list of strings.
pub open spec fn strings_view(s: Seq<String>) -> Seq<Seq<char>> {
    Seq::new(s.len(), |i: int| s[i]@)
}

/// The character-level view of a list of rows of strings.
pub open spec fn rows_view(s: Seq<Vec<String>>) -> Seq<Seq<Seq<char>>> {
    Seq::new(s.len(), |i: int| strings_view(s[i]@))
}

/// What the markdown table for given headings and rows looks like.
pub uninterp spec fn md_table_of(headings: Seq<Seq<char>>, rows: Seq<Seq<Seq<char>>>) -> Seq<
    char,
>;

/// Relies on `markdown_table::MarkdownTable::as_markdown` with headings: a
/// pure function of headings and cells, succeeding when no row is wider
/// than the headings.
#[verifier::external_body]
fn markdown_table(headings: Vec<String>, rows: Vec<Vec<String>>) -> (r: String)
    requires
        forall|i: int| 0 <= i < rows@.len() ==> (#[trigger] rows@[i])@.len() <= headings@.len(),
    ensures
        r@ == md_table_of(strings_view(headings@), rows_view(rows@)),
{
    let hs = headings.into_iter().map(|l| markdown_table::Heading::new(l, None)).collect();
    let mut table = markdown_table::MarkdownTable::new(rows);
    table.with_headings(hs);
    table.as_markdown().unwrap()
}

/// The table headings of the review description: Field and Content.
pub open spec fn review_headings() -> Seq<Seq<char>> {
    seq!["Field"@, "Content"@]
}

/// The review description: the rendered description template, a blank
/// line, then the field table.
pub open spec fn review_description(e: NewEntryView, template: Seq<char>) -> Seq<char> {
    render_entry(e, template) + "\n\n"@ + md_table_of(review_headings(), fields_rows(e.fields))
}

impl EntryConfig {
    /// Expands this entry type's configuration over a processed entry into
    /// a storage-ready record.
    ///
    /// Fails if the entry names no target branch, if the entry type has no
    /// git configuration, if the branch template renders non-empty and
    /// differs from the target branch (branch pinning), or if serialization
    /// fails. Otherwise the record targets the entry's branch, and its paths,
    /// commit message and —
    /// exactly when review is enabled — review branch and description are
    /// the rendered templates, and the content is the serialized field map.
    pub fn render(&self, entry: NewEntry) -> (r: ImpResult<GitEntry>)
        ensures
            entry@.branch.len() == 0 ==> (r matches Err(e) && e matches ImpError::BadRequest(
                _,
                m,
            ) && m@ == "Must specify branch"@),
            self.git is None ==> entry@.branch.len() > 0 ==> (r matches Err(e) && e matches
                ImpError::BadRequest(_, m) && m@ == "missing git entry configuration"@),
            self.git matches Some(g) ==> entry@.branch.len() > 0 ==> {
                let e = entry@;
                let pinned = render_entry(e, g.branch@);
                if pinned.len() > 0 && pinned != e.branch {
                    r matches Err(err) && err matches ImpError::BadRequest(_, m) && m@
                        == "Branch not allowed"@
                } else {
                    match serialize_result(self.format, e.fields) {
                        Some(s) => {
                            &&& r matches Ok(ge)
                            &&& ge.project_id@ == e.project_id
                            &&& ge.branch@ == e.branch
                            &&& ge.file_path@ == join_path(
                                render_entry(e, g.path@),
                                render_entry(e, g.filename@),
                            )
                            &&& ge.commit_message@ == render_entry(e, g.commit_message@)
                            &&& ge.format == self.format
                            &&& ge.content@ == encode_utf8(s)
                            &&& self.review ==> {
                                &&& ge.review_branch matches Some(rb)
                                &&& rb@ == render_entry(e, g.review_branch@)
                                &&& ge.mr_description matches Some(d)
                                &&& d@ == review_description(e, g.mr_description@)
                            }
                            &&& !self.review ==> {
                                &&& ge.review_branch is None
                                &&& ge.mr_description is None
                            }
                        },
                        None => r matches Err(err) && err matches ImpError::BadRequest(_, m)
                            && m@ == "Bad yaml output"@,
                    }
                }
            },
    {
        if entry.branch.as_str().is_empty() {
            return Err(
                ImpError::BadRequest(String::new(), String::from_str("Must specify branch")),
            );
        }
        let gitconf = match &self.git {
            None => {
                return Err(
                    ImpError::BadRequest(
                        String::new(),
                        String::from_str("missing git entry configuration"),
                    ),
                );
            },
            Some(g) => g,
        };
        proof {
            assert(crate::rendertemplate::resolver_of(&entry) =~= entry_resolver(entry@));
        }
        let pinned = render_str(gitconf.branch.as_str(), &entry);
        if !pinned.as_str().is_empty() && !str_eq(pinned.as_str(), entry.branch.as_str()) {
            return Err(
                ImpError::BadRequest(String::new(), String::from_str("Branch not allowed")),
            );
        }
        let dir = render_str(gitconf.path.as_str(), &entry);
        let filename = render_str(gitconf.filename.as_str(), &entry);
        let file_path = join_path_exec(dir.as_str(), filename.as_str());
        let commit_message = render_str(gitconf.commit_message.as_str(), &entry);
        let (review_branch, mr_description) = if self.review {
            let pairs = entry.fields.pairs();
            let n = pairs.len();
            let mut rows: Vec<Vec<String>> = Vec::new();
            let mut i: usize = 0;
            while i < n
                invariant
                    i <= n,
                    n == pairs@.len(),
                    pairs_view(pairs@) == entry@.fields,
                    rows@.len() == i,
                    forall|j: int|
                        0 <= j < i ==> strings_view((#[trigger] rows@[j])@) == fields_rows(
                            entry@.fields,
                        )[j],
                    forall|j: int| 0 <= j < i ==> (#[trigger] rows@[j])@.len() == 2,
                decreases n - i,
            {
                let row = vec![pairs[i].0.clone(), pairs[i].1.clone()];
                proof {
                    assert(strings_view(row@) =~= seq![pairs@[i as int].0@, pairs@[i as int].1@]);
                    assert(fields_rows(entry@.fields)[i as int] == seq![
                        entry@.fields[i as int].0,
                        entry@.fields[i as int].1,
                    ]);
                    assert(pairs_view(pairs@)[i as int] == entry@.fields[i as int]);
                }
                rows.push(row);
                i = i + 1;
            }
            let mut headings: Vec<String> = Vec::new();
            headings.push(String::from_str("Field"));
            headings.push(String::from_str("Content"));
            proof {
                assert(strings_view(headings@) =~= review_headings());
                assert(rows_view(rows@) =~= fields_rows(entry@.fields));
            }
            let table = markdown_table(headings, rows);
            let mr = render_str(gitconf.mr_description.as_str(), &entry);
            let mr = mr.concat("\n\n").concat(table.as_str());
            let rb = render_str(gitconf.review_branch.as_str(), &entry);
            (Some(rb), Some(mr))
        } else {
            (None, None)
        };
        let content = match entry.fields.serialize(self.format) {
            Ok(b) => b,
            Err(e) => {
                return Err(e);
            },
        };
        Ok(
            GitEntry {
                project_id: entry.project_id,
                branch: entry.branch,
                file_path,
                content,
                commit_message,
                review_branch,
                mr_description,
                format: self.format,
            },
        )
    }
}

/// Gitlab backend settings.
#[derive(Clone, Debug)]
pub struct GitlabConfig {
    /// Gitlab host, without a scheme.
    pub host: String,
    /// Token to authenticate with.
    pub token: String,
}

/// Settings of the debug backend, which returns the processed record
/// instead of storing it.
#[derive(Clone, Debug)]
pub struct DebugConfig {}

/// The backend driver a backend name is configured with.
#[derive(Clone, Debug)]
pub enum DriverConfig {
    /// A Gitlab backend.
    Gitlab(GitlabConfig),
    /// The debug backend.
    Debug(DebugConfig),
}

/// Configuration of one backend: where its project configuration lives and
/// which driver serves it.
#[derive(Clone, Debug)]
pub struct BackendConfig {
    /// Path of the per-project configuration file; empty means the global
    /// configuration alone applies.
    pub project_config_path: String,
    /// Format of the project configuration file; guessed from the path
    /// when absent.
    pub project_config_format: Option<SerializationFormat>,
    /// Driver-specific settings.
    pub driver: DriverConfig,
}

impl BackendConfig {
    /// The format of the project configuration file: the configured one,
    /// or the one the path implies.
    pub fn format(&self) -> (r: SerializationFormat)
        ensures
            match self.project_config_format {
                Some(f) => r == f,
                None => r is Json <==> is_json_path(self.project_config_path@),
            },
    {
        match &self.project_config_format {
            Some(f) => *f,
            None => SerializationFormat::from_path(self.project_config_path.as_str()),
        }
    }
}

/// First-match lookup in a name-keyed configuration list.
pub open spec fn assoc_lookup<T>(pairs: Seq<(String, T)>, name: Seq<char>) -> Option<T>
    decreases pairs.len(),
{
    if pairs.len() == 0 {
        None
    } else if pairs[0].0@ == name {
        Some(pairs[0].1)
    } else {
        assoc_lookup(pairs.drop_first(), name)
    }
}

/// Service configuration: the backends, the entry types, and the service's
/// own settings.
#[derive(Clone, Debug)]
pub struct Config {
    /// The configured backends, by name.
    pub backends: Vec<(String, BackendConfig)>,
    /// Host to listen on.
    pub host: String,
    /// Port to listen on.
    pub port: u16,
    /// Format used for `{@timestamp}` placeholders, rendered once at entry
    /// creation.
    pub timestamp_format: String,
    /// Path of the private key used for project secrets.
    pub key_path: String,
    /// The configured entry types, by name.
    pub entries: Vec<(String, EntryConfig)>,
}

impl Config {
    /// The configuration of the named entry type, if any.
    pub fn get_entry(&self, name: &str) -> (r: Option<&EntryConfig>)
        ensures
            match r {
                Some(c) => assoc_lookup(self.entries@, name@) == Some(*c),
                None => assoc_lookup(self.entries@, name@) is None,
            },
    {
        let n = self.entries.len();
        let mut i: usize = 0;
        proof {
            assert(self.entries@.skip(0) =~= self.entries@);
        }
        while i < n
            invariant
                i <= n,
                n == self.entries@.len(),
                assoc_lookup(self.entries@, name@) == assoc_lookup(
                    self.entries@.skip(i as int),
                    name@,
                ),
            decreases n - i,
        {
            proof {
                assert(self.entries@.skip(i as int)[0] == self.entries@[i as int]);
                assert(self.entries@.skip(i as int).drop_first() =~= self.entries@.skip(i + 1));
            }
            if str_eq(self.entries[i].0.as_str(), name) {
                return Some(&self.entries[i].1);
            }
            i = i + 1;
        }
        proof {
            assert(self.entries@.skip(n as int).len() == 0);
        }
        None
    }

    /// The configuration of the named backend, if any.
    pub fn get_backend(&self, name: &str) -> (r: Option<&BackendConfig>)
        ensures
            match r {
                Some(c) => assoc_lookup(self.backends@, name@) == Some(*c),
                None => assoc_lookup(self.backends@, name@) is None,
            },
    {
        let n = self.backends.len();
        let mut i: usize = 0;
        proof {
            assert(self.backends@.skip(0) =~= self.backends@);
        }
        while i < n
            invariant
                i <= n,
                n == self.backends@.len(),
                assoc_lookup(self.backends@, name@) == assoc_lookup(
                    self.backends@.skip(i as int),
                    name@,
                ),
            decreases n - i,
        {
            proof {
                assert(self.backends@.skip(i as int)[0] == self.backends@[i as int]);
                assert(self.backends@.skip(i as int).drop_first() =~= self.backends@.skip(i + 1));
            }
            if str_eq(self.backends[i].0.as_str(), name) {
                return Some(&self.backends[i].1);
            }
            i = i + 1;
        }
        proof {
            assert(self.backends@.skip(n as int).len() == 0);
        }
        None
    }

    /// Builds a [`NewEntry`] for one request: a fresh unique id, the
    /// creation time (both as a timestamp and pre-rendered with this
    /// configuration's format), and the request's data.
    ///
    /// The id and the clock come from the environment, so only their shape
    /// is promised: the id has 36 characters, and the pre-rendered time is
    /// what [`ts_format`] says for the entry's own timestamp (empty when
    /// the configured format is rejected).
    pub fn new_entry(
        &self,
        project_id: String,
        branch: String,
        fields: EntryFields,
        params: Vec<(String, String)>,
    ) -> (r: NewEntry)
        ensures
            r@.uid.len() == 36,
            r@.timestamp_nanos < 2000000000,
            r@.timestamp_str == match ts_format(
                r@.timestamp_secs,
                r@.timestamp_nanos,
                self.timestamp_format@,
            ) {
                Some(s) => s,
                None => Seq::<char>::empty(),
            },
            r@.project_id == project_id@,
            r@.branch == branch@,
            r@.fields == fields@,
            r@.params == pairs_view(params@),
    {
        let uid = new_uuid();
        let (secs, nanos) = now_parts();
        let timestamp_str = match format_timestamp(secs, nanos, self.timestamp_format.as_str()) {
            Some(s) => s,
            None => {
                let empty = String::new();
                proof {
                    assert(empty@ =~= Seq::<char>::empty());
                }
                empty
            },
        };
        NewEntry::new(uid, secs, nanos, timestamp_str, project_id, branch, fields, params)
    }
}

/// Per-project configuration, loaded from the project's own repository:
/// entry types that override the global ones of the same name.
#[derive(Clone, Debug)]
pub struct ProjectConfig {
    /// The project's entry types, by name.
    pub entries: Vec<(String, EntryConfig)>,
}

} // verus!

