//! YAML documents as plain trees.

use vstd::prelude::*;

use crate::value::{Float, FloatData};

verus! {

/// A number of a YAML document: the integer it is, if it fits, the double it
/// is, and the text it reads as.
#[derive(Debug)]
pub struct YamlNumber {
    pub int: Option<i64>,
    pub float: Option<Float>,
    pub text: String,
}

/// What a [`YamlNumber`] holds.
pub struct NumberData {
    pub int: Option<i64>,
    pub float: Option<FloatData>,
    pub text: Seq<char>,
}

impl View for YamlNumber {
    type V = NumberData;

    open spec fn view(&self) -> NumberData {
        NumberData {
            int: self.int,
            float: match self.float {
                Some(f) => Some(f@),
                None => None,
            },
            text: self.text@,
        }
    }
}

/// A key of a YAML mapping. A key that is no scalar is held as the YAML text
/// it is written back as.
#[derive(Debug)]
pub enum YamlKey {
    Null,
    Bool(bool),
    Number(YamlNumber),
    String(String),
    Other(String),
}

/// What a [`YamlKey`] holds.
pub enum KeyData {
    Null,
    Bool(bool),
    Number(NumberData),
    Text(Seq<char>),
    Other(Seq<char>),
}

impl View for YamlKey {
    type V = KeyData;

    open spec fn view(&self) -> KeyData {
        match self {
            YamlKey::Null => KeyData::Null,
            YamlKey::Bool(b) => KeyData::Bool(*b),
            YamlKey::Number(n) => KeyData::Number(n@),
            YamlKey::String(s) => KeyData::Text(s@),
            YamlKey::Other(s) => KeyData::Other(s@),
        }
    }
}

/// A YAML document.
#[derive(Debug)]
pub enum Yaml {
    Null,
    Bool(bool),
    Number(YamlNumber),
    String(String),
    Sequence(Vec<Yaml>),
    Mapping(Vec<(YamlKey, Yaml)>),
    Tagged(Box<Yaml>),
}

/// What a [`Yaml`] says.
pub enum YamlData {
    Null,
    Bool(bool),
    Number(NumberData),
    Text(Seq<char>),
    List(Seq<YamlData>),
    Pairs(Seq<(KeyData, YamlData)>),
    Tagged(Box<YamlData>),
}

impl Yaml {
    /// What the document says.
    pub open spec fn data(self) -> YamlData
        decreases self,
    {
        match self {
            Yaml::Null => YamlData::Null,
            Yaml::Bool(b) => YamlData::Bool(b),
            Yaml::Number(n) => YamlData::Number(n@),
            Yaml::String(s) => YamlData::Text(s@),
            Yaml::Sequence(items) => YamlData::List(
                Seq::new(
                    items@.len(),
                    |i: int|
                        if 0 <= i < items@.len() {
                            items@[i].data()
                        } else {
                            YamlData::Null
                        },
                ),
            ),
            Yaml::Mapping(pairs) => YamlData::Pairs(
                Seq::new(
                    pairs@.len(),
                    |i: int|
                        if 0 <= i < pairs@.len() {
                            (pairs@[i].0@, pairs@[i].1.data())
                        } else {
                            (KeyData::Null, YamlData::Null)
                        },
                ),
            ),
            Yaml::Tagged(inner) => YamlData::Tagged(Box::new(inner.data())),
        }
    }
}

impl View for Yaml {
    type V = YamlData;

    open spec fn view(&self) -> YamlData {
        self.data()
    }
}

/// What the items of a sequence say.
pub open spec fn items_data(items: Seq<Yaml>) -> Seq<YamlData> {
    items.map_values(|y: Yaml| y@)
}

/// What the entries of a mapping say.
pub open spec fn pairs_data(pairs: Seq<(YamlKey, Yaml)>) -> Seq<(KeyData, YamlData)> {
    pairs.map_values(|p: (YamlKey, Yaml)| (p.0@, p.1@))
}

/// A sequence says what its items say.
pub proof fn sequence_data(items: Vec<Yaml>)
    ensures
        Yaml::Sequence(items)@ == YamlData::List(items_data(items@)),
{
    assert(Yaml::Sequence(items)@->List_0 =~= items_data(items@));
}

/// A mapping says what its entries say.
pub proof fn mapping_data(pairs: Vec<(YamlKey, Yaml)>)
    ensures
        Yaml::Mapping(pairs)@ == YamlData::Pairs(pairs_data(pairs@)),
{
    assert(Yaml::Mapping(pairs)@->Pairs_0 =~= pairs_data(pairs@));
}

}
