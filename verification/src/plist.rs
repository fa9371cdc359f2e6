//! The parts of an application's `Info.plist` that the scan reads, and the
//! rules for reading them.

use vstd::prelude::*;
use vstd::string::*;
use crate::model::{first_index, lemma_first_index_is, texts};

verus! {

/// A property-list value.  Kinds the scan never reads (numbers, dates,
/// data, booleans) are all `Other`.
pub enum PlistValue {
    String(String),
    Array(Vec<PlistValue>),
    Dictionary(Vec<DictEntry>),
    Other,
}

/// One key of a property-list dictionary, in document order.
pub struct DictEntry {
    pub key: String,
    pub value: PlistValue,
}

/// The extensions that the system associates with a uniform type
/// identifier.
pub struct UtiExtensions {
    pub uti: String,
    pub extensions: Vec<String>,
}

/// The entry has key `key`.
pub open spec fn key_is(key: Seq<char>) -> spec_fn(DictEntry) -> bool {
    |d: DictEntry| d.key@ == key
}

/// The value stored under `key` (the first such entry).
pub open spec fn lookup(entries: Seq<DictEntry>, key: Seq<char>) -> Option<PlistValue> {
    let k = first_index(entries, key_is(key));
    if k >= 0 {
        Some(entries[k].value)
    } else {
        None
    }
}

/// The text of a string value.
pub open spec fn as_text(v: Option<PlistValue>) -> Option<Seq<char>> {
    match v {
        Some(PlistValue::String(s)) => Some(s@),
        _ => None,
    }
}

/// The elements of an array value; nothing for any other value.
pub open spec fn as_items(v: Option<PlistValue>) -> Seq<PlistValue> {
    match v {
        Some(PlistValue::Array(a)) => a@,
        _ => Seq::empty(),
    }
}

/// The strings among `items`, in order.
pub open spec fn strings_in(items: Seq<PlistValue>) -> Seq<Seq<char>>
    decreases items.len(),
{
    if items.len() == 0 {
        Seq::empty()
    } else {
        strings_in(items.drop_last()) + match items.last() {
            PlistValue::String(s) => seq![s@],
            _ => Seq::empty(),
        }
    }
}

/// Finds the value stored under `key`.
pub fn get<'a>(entries: &'a Vec<DictEntry>, key: &str) -> (r: Option<&'a PlistValue>)
    ensures
        match r {
            Some(x) => lookup(entries@, key@) == Some(*x),
            None => lookup(entries@, key@) is None,
        },
{
    let k = String::from_str(key);
    let mut i: usize = 0;
    while i < entries.len()
        invariant
            k@ == key@,
            i <= entries.len(),
            forall|j: int| 0 <= j < i ==> !key_is(key@)(#[trigger] entries@[j]),
        decreases entries.len() - i,
    {
        if entries[i].key == k {
            proof {
                lemma_first_index_is(entries@, key_is(key@), i as int);
            }
            return Some(&entries[i].value);
        }
        i = i + 1;
    }
    proof {
        lemma_first_index_is(entries@, key_is(key@), -1);
    }
    None
}

/// Collects the strings among `items`.
pub fn collect_strings(items: &Vec<PlistValue>) -> (r: Vec<String>)
    ensures
        texts(r@) == strings_in(items@),
{
    let mut r: Vec<String> = Vec::new();
    let mut i: usize = 0;
    while i < items.len()
        invariant
            i <= items.len(),
            texts(r@) == strings_in(items@.take(i as int)),
        decreases items.len() - i,
    {
        proof {
            assert(items@.take(i + 1).drop_last() =~= items@.take(i as int));
        }
        let ghost before = r@;
        match &items[i] {
            PlistValue::String(s) => {
                let c = s.clone();
                r.push(c);
                proof {
                    assert(texts(r@) =~= texts(before) + seq![c@]);
                }
            },
            _ => {
                proof {
                    assert(texts(r@) =~= texts(before) + Seq::<Seq<char>>::empty());
                }
            },
        }
        i = i + 1;
    }
    proof {
        assert(items@.take(i as int) =~= items@);
    }
    r
}


/// What `plist::Value::from_reader` makes of a property-list file's bytes
/// (in any of its encodings), as the library's value; `None` when they do
/// not parse.
pub uninterp spec fn plist_of(bytes: Seq<u8>) -> Option<PlistValue>;

/// The property-list value of the `plist` crate.
#[verifier::external_type_specification]
#[verifier::external_body]
pub struct ExOutsidePlistValue(::plist::Value);

/// Calls `plist::Value::from_reader` on the bytes and converts the value it
/// gives; `None` when it reports an error.  The contract only names the
/// result: the same bytes give the same value.
#[verifier::external_body]
pub(crate) fn parse_plist(bytes: &[u8]) -> (r: Option<PlistValue>)
    ensures
        r == plist_of(bytes@),
{
    match ::plist::Value::from_reader(std::io::Cursor::new(bytes)) {
        Ok(v) => Some(from_outside(v)),
        Err(_) => None,
    }
}

/// Converts a value of the `plist` crate one for one, for `parse_plist`:
/// strings, arrays and dictionaries (entries in document order) keep their
/// shape, and every other kind becomes `Other`.
#[verifier::external_body]
fn from_outside(v: ::plist::Value) -> PlistValue {
    match v {
        ::plist::Value::String(s) => PlistValue::String(s),
        ::plist::Value::Array(a) => PlistValue::Array(a.into_iter().map(from_outside).collect()),
        ::plist::Value::Dictionary(d) => PlistValue::Dictionary(
            d.into_iter().map(|(key, value)| DictEntry { key, value: from_outside(value) }).collect(),
        ),
        _ => PlistValue::Other,
    }
}

} // verus!
