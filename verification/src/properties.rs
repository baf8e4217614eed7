//! The attributes of a feature, as a corpus gives them and as an item gives
//! them back.

use vstd::prelude::*;
use vstd::string::*;

verus! {

/// The value of one attribute.
#[derive(Debug)]
pub enum PropertyValue {
    /// No value.
    Null,
    /// A truth value.
    Bool(bool),
    /// A number: as an unsigned integer where it is one, and as the bit
    /// pattern of the nearest single-precision value.
    Number { unsigned: Option<u64>, single: u32 },
    /// A whole number that an item gives back, for which no single-precision
    /// pattern is held.
    Integer(i64),
    /// A string.
    Text(String),
    /// A list or a nested object.
    Other,
}

/// The value of one attribute as a mathematical value.
pub enum PropertyModel {
    Null,
    Bool(bool),
    Number { unsigned: Option<u64>, single: u32 },
    Integer(i64),
    Text(Seq<char>),
    Other,
}

impl View for PropertyValue {
    type V = PropertyModel;

    open spec fn view(&self) -> PropertyModel {
        match *self {
            PropertyValue::Null => PropertyModel::Null,
            PropertyValue::Bool(b) => PropertyModel::Bool(b),
            PropertyValue::Number { unsigned, single } => PropertyModel::Number { unsigned, single },
            PropertyValue::Integer(i) => PropertyModel::Integer(i),
            PropertyValue::Text(s) => PropertyModel::Text(s@),
            PropertyValue::Other => PropertyModel::Other,
        }
    }
}

/// The names and values that a run of attributes stands for.
pub open spec fn attributes(entries: Seq<(String, PropertyValue)>) -> Seq<
    (Seq<char>, PropertyModel),
> {
    Seq::new(entries.len(), |i: int| (entries[i].0@, entries[i].1@))
}

impl PropertyValue {
    /// The string, if the value is one.
    pub fn as_str(&self) -> (r: Option<&str>)
        ensures
            match *self {
                PropertyValue::Text(s) => r matches Some(t) && t@ == s@,
                _ => r is None,
            },
    {
        match self {
            PropertyValue::Text(s) => Some(s.as_str()),
            _ => None,
        }
    }

    /// The unsigned integer, if the value is one.
    pub fn as_u64(&self) -> (r: Option<u64>)
        ensures
            r == (match *self {
                PropertyValue::Number { unsigned, single } => unsigned,
                _ => None,
            }),
    {
        match self {
            PropertyValue::Number { unsigned, single } => *unsigned,
            _ => None,
        }
    }

    /// The bit pattern of the single-precision value, if the value is a
    /// number.
    pub fn as_single(&self) -> (r: Option<u32>)
        ensures
            r == (match *self {
                PropertyValue::Number { unsigned, single } => Some(single),
                _ => None,
            }),
    {
        match self {
            PropertyValue::Number { unsigned, single } => Some(*single),
            _ => None,
        }
    }
}

/// The first value under `key` among `entries`.
pub open spec fn first_under(entries: Seq<(String, PropertyValue)>, key: Seq<char>) -> Option<
    PropertyValue,
>
    decreases entries.len(),
{
    if entries.len() == 0 {
        None
    } else if entries[0].0@ == key {
        Some(entries[0].1)
    } else {
        first_under(entries.drop_first(), key)
    }
}

/// The attributes of a feature: names and their values.
#[derive(Debug)]
pub struct Properties(pub Vec<(String, PropertyValue)>);

impl View for Properties {
    type V = Seq<(String, PropertyValue)>;

    open spec fn view(&self) -> Seq<(String, PropertyValue)> {
        self.0@
    }
}

impl Properties {
    /// No attributes.
    pub fn new() -> (p: Properties)
        ensures
            p@.len() == 0,
    {
        Properties(Vec::new())
    }

    /// Adds the attribute `key` with the value `value` after those that are
    /// there.
    pub fn insert(&mut self, key: &str, value: PropertyValue)
        ensures
            final(self)@.len() == old(self)@.len() + 1,
            final(self)@.drop_last() == old(self)@,
            final(self)@.last().0@ == key@,
            final(self)@.last().1 == value,
            attributes(final(self)@) == attributes(old(self)@).push((key@, value@)),
    {
        self.0.push((key.to_owned(), value));
        assert(self@.drop_last() == old(self)@);
        assert(attributes(self@) == attributes(old(self)@).push((key@, value@)));
    }

    /// The value of the attribute `key`: of the first one, where several have
    /// the name.
    pub fn get(&self, key: &str) -> (r: Option<&PropertyValue>)
        ensures
            match first_under(self@, key@) {
                Some(v) => r matches Some(w) && *w == v,
                None => r is None,
            },
    {
        let wanted = key.to_owned();
        let mut i: usize = 0;
        assert(self@.skip(0) == self@);
        while i < self.0.len()
            invariant
                i <= self@.len(),
                wanted@ == key@,
                first_under(self@, key@) == first_under(self@.skip(i as int), key@),
            decreases self.0.len() - i,
        {
            if self.0[i].0 == wanted {
                assert(self@.skip(i as int)[0] == self@[i as int]);
                return Some(&self.0[i].1);
            }
            assert(self@.skip(i as int)[0] == self@[i as int]);
            assert(self@.skip(i as int).drop_first() == self@.skip(i + 1));
            i = i + 1;
        }
        None
    }
}

/// Why a feature could not become an item.
#[derive(Clone, Copy, Debug, PartialEq, Eq, Structural)]
pub enum FeatureError {
    /// An attribute that the corpus always has is not there.
    MissingProperty,
    /// An attribute holds a value of another kind than the corpus gives it.
    InvalidProperty,
}

/// The string under `key`, which has to be there.
pub open spec fn required_text(entries: Seq<(String, PropertyValue)>, key: Seq<char>) -> Result<
    Seq<char>,
    FeatureError,
> {
    match first_under(entries, key) {
        None => Err(FeatureError::MissingProperty),
        Some(PropertyValue::Text(s)) => Ok(s@),
        Some(_) => Err(FeatureError::InvalidProperty),
    }
}

/// The string under `key`, where the value is one: the name has to be there,
/// its value may be of any kind.
pub open spec fn optional_text(entries: Seq<(String, PropertyValue)>, key: Seq<char>) -> Result<
    Option<Seq<char>>,
    FeatureError,
> {
    match first_under(entries, key) {
        None => Err(FeatureError::MissingProperty),
        Some(PropertyValue::Text(s)) => Ok(Some(s@)),
        Some(_) => Ok(None),
    }
}

/// The unsigned integer under `key`, which has to be there and to fit a
/// machine word.
pub open spec fn required_index(entries: Seq<(String, PropertyValue)>, key: Seq<char>) -> Result<
    usize,
    FeatureError,
> {
    match first_under(entries, key) {
        None => Err(FeatureError::MissingProperty),
        Some(PropertyValue::Number { unsigned: Some(v), single }) => if v <= usize::MAX {
            Ok(v as usize)
        } else {
            Err(FeatureError::InvalidProperty)
        },
        Some(_) => Err(FeatureError::InvalidProperty),
    }
}

/// The single-precision bit pattern of the number under `key`, which has to
/// be there.
pub open spec fn required_single(entries: Seq<(String, PropertyValue)>, key: Seq<char>) -> Result<
    u32,
    FeatureError,
> {
    match first_under(entries, key) {
        None => Err(FeatureError::MissingProperty),
        Some(PropertyValue::Number { unsigned, single }) => Ok(single),
        Some(_) => Err(FeatureError::InvalidProperty),
    }
}

impl Properties {
    /// The string under `key`, which has to be there.
    pub fn text(&self, key: &str) -> (r: Result<String, FeatureError>)
        ensures
            match required_text(self@, key@) {
                Ok(v) => r matches Ok(s) && s@ == v,
                Err(e) => r matches Err(f) && f == e,
            },
    {
        match self.get(key) {
            None => Err(FeatureError::MissingProperty),
            Some(value) => match value.as_str() {
                Some(s) => Ok(s.to_owned()),
                None => Err(FeatureError::InvalidProperty),
            },
        }
    }

    /// The string under `key`, where the value is one.
    pub fn text_or_none(&self, key: &str) -> (r: Result<Option<String>, FeatureError>)
        ensures
            match optional_text(self@, key@) {
                Ok(Some(v)) => r matches Ok(Some(s)) && s@ == v,
                Ok(None) => r matches Ok(None),
                Err(e) => r matches Err(f) && f == e,
            },
    {
        match self.get(key) {
            None => Err(FeatureError::MissingProperty),
            Some(value) => match value.as_str() {
                Some(s) => Ok(Some(s.to_owned())),
                None => Ok(None),
            },
        }
    }

    /// The unsigned integer under `key`, as a machine word.
    pub fn index(&self, key: &str) -> (r: Result<usize, FeatureError>)
        ensures
            r == required_index(self@, key@),
    {
        match self.get(key) {
            None => Err(FeatureError::MissingProperty),
            Some(value) => match value.as_u64() {
                Some(v) => if v <= usize::MAX as u64 {
                    Ok(v as usize)
                } else {
                    Err(FeatureError::InvalidProperty)
                },
                None => Err(FeatureError::InvalidProperty),
            },
        }
    }

    /// The single-precision bit pattern of the number under `key`.
    pub fn single(&self, key: &str) -> (r: Result<u32, FeatureError>)
        ensures
            r == required_single(self@, key@),
    {
        match self.get(key) {
            None => Err(FeatureError::MissingProperty),
            Some(value) => match value.as_single() {
                Some(v) => Ok(v),
                None => Err(FeatureError::InvalidProperty),
            },
        }
    }
}

} // verus!
