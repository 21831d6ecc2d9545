//! Key paths: the chains of object keys and array indices that address a value in a document.

use std::borrow::Cow;

use vstd::prelude::*;

use crate::canonical::{canonical, decode_canonical_path, decoded, encode_canonical_path};
use crate::error::Error;
use crate::text::{chars_of, cow_clone, cow_string, int_text, push_chars, push_int};

verus! {

/// Represents a set of key path chains.
/// Compatible with PostgreSQL extracts JSON sub-object paths syntax.
#[derive(Debug, Clone, PartialEq, Eq, Hash)]
pub struct KeyPaths<'a> {
    pub paths: Vec<KeyPath<'a>>,
}

/// Represents a valid key path.
#[derive(Debug, PartialEq, Eq, Hash)]
pub enum KeyPath<'a> {
    /// represents the index of an Array, allow negative indexing.
    Index(i32),
    /// represents the quoted field name of an Object.
    QuotedName(Cow<'a, str>),
    /// represents the field name of an Object.
    Name(Cow<'a, str>),
}

/// Represents a set of owned key path chains.
#[derive(Debug, Clone, PartialEq, Eq, Hash, PartialOrd, Ord)]
pub struct OwnedKeyPaths {
    pub paths: Vec<OwnedKeyPath>,
}

/// Represents a valid owned key path. Quoting is a serialization detail, so
/// quoted and unquoted object keys share the same `Name` representation.
#[derive(Debug, Clone, PartialEq, Eq, Hash, PartialOrd, Ord)]
pub enum OwnedKeyPath {
    /// represents the index of an Array, allow negative indexing.
    Index(i32),
    /// represents the field name of an Object.
    Name(String),
}

/// What a [`KeyPath`] is, with names as sequences of characters.
pub enum KeyPathModel {
    Index(i32),
    QuotedName(Seq<char>),
    Name(Seq<char>),
}

/// What an [`OwnedKeyPath`] is, with names as sequences of characters.
pub enum OwnedKeyPathModel {
    Index(i32),
    Name(Seq<char>),
}

impl<'a> View for KeyPath<'a> {
    type V = KeyPathModel;

    open spec fn view(&self) -> KeyPathModel {
        match *self {
            KeyPath::Index(index) => KeyPathModel::Index(index),
            KeyPath::QuotedName(name) => KeyPathModel::QuotedName(name@),
            KeyPath::Name(name) => KeyPathModel::Name(name@),
        }
    }
}

impl View for OwnedKeyPath {
    type V = OwnedKeyPathModel;

    open spec fn view(&self) -> OwnedKeyPathModel {
        match *self {
            OwnedKeyPath::Index(index) => OwnedKeyPathModel::Index(index),
            OwnedKeyPath::Name(name) => OwnedKeyPathModel::Name(name@),
        }
    }
}

/// A list of key paths.
pub open spec fn key_path_models(paths: Seq<KeyPath<'_>>) -> Seq<KeyPathModel> {
    paths.map_values(|path: KeyPath<'_>| path@)
}

/// A list of owned key paths.
pub open spec fn owned_key_path_models(paths: Seq<OwnedKeyPath>) -> Seq<OwnedKeyPathModel> {
    paths.map_values(|path: OwnedKeyPath| path@)
}

impl<'a> View for KeyPaths<'a> {
    type V = Seq<KeyPathModel>;

    open spec fn view(&self) -> Seq<KeyPathModel> {
        key_path_models(self.paths@)
    }
}

impl View for OwnedKeyPaths {
    type V = Seq<OwnedKeyPathModel>;

    open spec fn view(&self) -> Seq<OwnedKeyPathModel> {
        owned_key_path_models(self.paths@)
    }
}

/// A key path without its quotes.
pub open spec fn owned(path: KeyPathModel) -> OwnedKeyPathModel {
    match path {
        KeyPathModel::Index(index) => OwnedKeyPathModel::Index(index),
        KeyPathModel::QuotedName(name) => OwnedKeyPathModel::Name(name),
        KeyPathModel::Name(name) => OwnedKeyPathModel::Name(name),
    }
}

/// A list of key paths without their quotes.
pub open spec fn all_owned(paths: Seq<KeyPathModel>) -> Seq<OwnedKeyPathModel> {
    paths.map_values(|path: KeyPathModel| owned(path))
}

/// An owned key path as a key path; a name has no quotes.
pub open spec fn unquoted(path: OwnedKeyPathModel) -> KeyPathModel {
    match path {
        OwnedKeyPathModel::Index(index) => KeyPathModel::Index(index),
        OwnedKeyPathModel::Name(name) => KeyPathModel::Name(name),
    }
}

/// A list of owned key paths as key paths.
pub open spec fn all_unquoted(paths: Seq<OwnedKeyPathModel>) -> Seq<KeyPathModel> {
    paths.map_values(|path: OwnedKeyPathModel| unquoted(path))
}

/// A key path as it is shown: an index in decimal, a name as it is or in double quotes.
pub open spec fn key_path_text(path: KeyPathModel) -> Seq<char> {
    match path {
        KeyPathModel::Index(index) => int_text(index as int),
        KeyPathModel::QuotedName(name) => seq!['"'] + name + seq!['"'],
        KeyPathModel::Name(name) => name,
    }
}

/// Key paths as they are shown, with commas between them.
pub open spec fn joined_text(paths: Seq<KeyPathModel>) -> Seq<char>
    decreases paths.len(),
{
    if paths.len() == 0 {
        seq![]
    } else if paths.len() == 1 {
        key_path_text(paths[0])
    } else {
        joined_text(paths.drop_last()) + seq![','] + key_path_text(paths.last())
    }
}

/// A list of key paths as it is shown, in braces.
pub open spec fn key_paths_text(paths: Seq<KeyPathModel>) -> Seq<char> {
    seq!['{'] + joined_text(paths) + seq!['}']
}

impl<'a> Clone for KeyPath<'a> {
    fn clone(&self) -> (r: Self)
        ensures
            r@ == self@,
    {
        match self {
            KeyPath::Index(index) => KeyPath::Index(*index),
            KeyPath::QuotedName(name) => KeyPath::QuotedName(cow_clone(name)),
            KeyPath::Name(name) => KeyPath::Name(cow_clone(name)),
        }
    }
}

impl<'a> KeyPath<'a> {
    /// The key path without its quotes.
    pub fn to_owned(&self) -> (r: OwnedKeyPath)
        ensures
            r@ == owned(self@),
    {
        match self {
            KeyPath::Index(index) => OwnedKeyPath::Index(*index),
            KeyPath::QuotedName(name) => OwnedKeyPath::Name(cow_string(name)),
            KeyPath::Name(name) => OwnedKeyPath::Name(cow_string(name)),
        }
    }

    /// Appends the key path as it is shown.
    fn show(&self, out: &mut String)
        ensures
            final(out)@ == old(out)@ + key_path_text(self@),
    {
        match self {
            KeyPath::Index(index) => {
                push_int(out, *index);
            },
            KeyPath::QuotedName(name) => {
                out.push('"');
                push_chars(out, chars_of(cow_string(name).as_str()).as_slice());
                out.push('"');
            },
            KeyPath::Name(name) => {
                push_chars(out, chars_of(cow_string(name).as_str()).as_slice());
            },
        }
        assert(out@ =~= old(out)@ + key_path_text(self@));
    }

    /// The key path as it is shown.
    pub fn to_string(&self) -> (s: String)
        ensures
            s@ == key_path_text(self@),
    {
        let mut out = String::new();
        self.show(&mut out);
        assert(out@ =~= key_path_text(self@));
        out
    }
}

impl<'a> KeyPaths<'a> {
    /// The key paths without their quotes.
    pub fn to_owned(&self) -> (r: OwnedKeyPaths)
        ensures
            r@ == all_owned(self@),
    {
        OwnedKeyPaths::from_key_path_slice(self.paths.as_slice())
    }

    /// The key paths as they are shown.
    pub fn to_string(&self) -> (s: String)
        ensures
            s@ == key_paths_text(self@),
    {
        let mut out = String::new();
        out.push('{');
        let mut i: usize = 0;
        assert(out@ =~= seq!['{'] + joined_text(self@.take(0)));
        while i < self.paths.len()
            invariant
                i <= self.paths@.len(),
                out@ == seq!['{'] + joined_text(self@.take(i as int)),
            decreases self.paths@.len() - i,
        {
            let ghost before = out@;
            if i > 0 {
                out.push(',');
            }
            self.paths[i].show(&mut out);
            proof {
                let more = self@.take(i + 1);
                assert(more.drop_last() =~= self@.take(i as int));
                assert(more.last() == self.paths@[i as int]@);
                if i == 0 {
                    assert(self@.take(0) =~= Seq::empty());
                }
                assert(out@ =~= seq!['{'] + joined_text(more));
            }
            i += 1;
        }
        out.push('}');
        assert(self@.take(i as int) =~= self@);
        assert(out@ =~= key_paths_text(self@));
        out
    }
}

impl OwnedKeyPath {
    /// The owned key path as a key path.
    pub fn as_key_path(&self) -> (r: KeyPath<'_>)
        ensures
            r@ == unquoted(self@),
    {
        match self {
            OwnedKeyPath::Index(index) => KeyPath::Index(*index),
            OwnedKeyPath::Name(name) => KeyPath::Name(Cow::Borrowed(name.as_str())),
        }
    }

    /// The key path as it is shown.
    pub fn to_string(&self) -> (s: String)
        ensures
            s@ == key_path_text(unquoted(self@)),
    {
        self.as_key_path().to_string()
    }
}

impl OwnedKeyPaths {
    /// The given key paths without their quotes.
    pub fn from_key_path_slice(key_paths: &[KeyPath<'_>]) -> (r: OwnedKeyPaths)
        ensures
            r@ == all_owned(key_path_models(key_paths@)),
    {
        let mut paths: Vec<OwnedKeyPath> = Vec::with_capacity(key_paths.len());
        let mut i: usize = 0;
        while i < key_paths.len()
            invariant
                i <= key_paths@.len(),
                paths@.len() == i,
                forall|j: int| 0 <= j < i ==> (#[trigger] paths@[j])@ == owned(key_paths@[j]@),
            decreases key_paths@.len() - i,
        {
            paths.push(key_paths[i].to_owned());
            i += 1;
        }
        assert(owned_key_path_models(paths@) =~= all_owned(key_path_models(key_paths@)));
        OwnedKeyPaths { paths }
    }

    /// The owned key paths as key paths.
    pub fn as_key_paths(&self) -> (r: KeyPaths<'_>)
        ensures
            r@ == all_unquoted(self@),
    {
        let mut paths: Vec<KeyPath<'_>> = Vec::with_capacity(self.paths.len());
        let mut i: usize = 0;
        while i < self.paths.len()
            invariant
                i <= self.paths@.len(),
                paths@.len() == i,
                forall|j: int| 0 <= j < i ==> (#[trigger] paths@[j])@ == unquoted(self.paths@[j]@),
            decreases self.paths@.len() - i,
        {
            paths.push(self.paths[i].as_key_path());
            i += 1;
        }
        assert(key_path_models(paths@) =~= all_unquoted(self@));
        KeyPaths { paths }
    }

    /// Encode this path into the compact canonical form used by virtual-column
    /// metadata. Identifier-like keys use dot notation, array indexes use
    /// brackets, and only keys containing special characters are quoted.
    ///
    /// Examples: `user.name`, `users[0].id`, `user.'profile.name'`.
    pub fn to_canonical_path(&self) -> (s: String)
        ensures
            s@ == canonical(self@),
    {
        encode_canonical_path(self.paths.as_slice())
    }

    /// Decode the compact canonical representation produced by
    /// [`Self::to_canonical_path`].
    pub fn from_canonical_path(path: &str) -> (r: Result<OwnedKeyPaths, Error>)
        ensures
            match decoded(path@) {
                Some(steps) => r matches Ok(paths) && paths@ == steps,
                None => r == Err::<OwnedKeyPaths, Error>(Error::InvalidKeyPath),
            },
    {
        match decode_canonical_path(path) {
            Some(paths) => Ok(paths),
            None => Err(Error::InvalidKeyPath),
        }
    }

    /// The key paths as they are shown.
    pub fn to_string(&self) -> (s: String)
        ensures
            s@ == key_paths_text(all_unquoted(self@)),
    {
        self.as_key_paths().to_string()
    }
}

} // verus!
