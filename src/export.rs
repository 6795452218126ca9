//! The registry as one binary document, for export and import.
//!
//! The document holds one entry per location, in stored order: its key is
//! the identifier in hexadecimal and its value the array of strings that
//! [`crate::record`] writes.
use crate::locations::{unique_ids, upserted, has_id, Location, LocationView, Locations};
use crate::record::{
    lemma_key_round_trip, parse_record, read_record, record_key, string_views, write_key,
    write_record,
};
use vstd::prelude::*;

verus! {

/// bson's document: an ordered map from keys to values, held opaque.
#[verifier::external_type_specification]
#[verifier::external_body]
pub struct ExDocument(bson::Document);

/// bson's error on writing a document, held opaque.
#[verifier::external_type_specification]
#[verifier::external_body]
pub struct ExEncodeError(bson::ser::Error);

/// bson's error on reading a document, held opaque.
#[verifier::external_type_specification]
#[verifier::external_body]
pub struct ExDecodeError(bson::de::Error);

/// A document's entries, in order: each key, with the strings of its value
/// where that value is an array of strings, else `None`.
pub uninterp spec fn doc_entries(d: bson::Document) -> Seq<(Seq<char>, Option<Seq<Seq<char>>>)>;

/// The entries, as [`doc_entries`] gives them, of the document that
/// `bson::Document::from_reader` reads from `b`; `None` where it fails.
pub uninterp spec fn bson_decoded(b: Seq<u8>) -> Option<Seq<(Seq<char>, Option<Seq<Seq<char>>>)>>;

/// The keys of a document's entries, in order.
pub open spec fn entry_keys(entries: Seq<(Seq<char>, Option<Seq<Seq<char>>>)>) -> Seq<Seq<char>> {
    entries.map_values(|e: (Seq<char>, Option<Seq<Seq<char>>>)| e.0)
}

/// Relies on bson::Document::new: an empty document.
pub assume_specification[ bson::Document::new ]() -> (r: bson::Document)
    ensures
        doc_entries(r) == Seq::<(Seq<char>, Option<Seq<Seq<char>>>)>::empty(),
;

/// Relies on bson::Document::insert, which appends an entry for a new key,
/// and on bson's `From<Vec<String>>` for `Bson`, an array of strings.
#[verifier::external_body]
fn push_string_list(d: &mut bson::Document, key: String, items: Vec<String>)
    requires
        forall|i: int| 0 <= i < doc_entries(*old(d)).len() ==> doc_entries(*old(d))[i].0 != key@,
    ensures
        doc_entries(*final(d)) == doc_entries(*old(d)).push((key@, Some(string_views(items@)))),
{
    d.insert(key, items);
}

/// Relies on bson::Document::keys: the keys in order.
#[verifier::external_body]
fn document_keys(d: &bson::Document) -> (r: Vec<String>)
    ensures
        string_views(r@) == entry_keys(doc_entries(*d)),
{
    d.keys().cloned().collect()
}

/// Relies on bson::Document::get_array and bson::Bson::as_str: the strings
/// of the value under `key`, where it is an array of strings.
#[verifier::external_body]
fn string_list(d: &bson::Document, key: &str) -> (r: Option<Vec<String>>)
    ensures
        forall|i: int|
            0 <= i < doc_entries(*d).len() && #[trigger] doc_entries(*d)[i].0 == key@ ==> (match r {
                Some(v) => doc_entries(*d)[i].1 == Some(string_views(v@)),
                None => doc_entries(*d)[i].1 is None,
            }),
{
    match d.get_array(key) {
        Ok(a) => a.iter().map(|b| b.as_str().map(String::from)).collect(),
        Err(_) => None,
    }
}

/// Relies on bson::Document::to_writer: the bytes it writes are read back by
/// `bson::Document::from_reader` as a document with the same entries. Into a
/// `Vec` it fails only on a key that holds a NUL character.
#[verifier::external_body]
fn encode_document(d: &bson::Document) -> (r: Result<Vec<u8>, bson::ser::Error>)
    ensures
        r matches Ok(b) ==> bson_decoded(b@) == Some(doc_entries(*d)),
        (forall|i: int|
            0 <= i < doc_entries(*d).len() ==> (#[trigger] doc_entries(*d)[i]).1 is Some
                && !doc_entries(*d)[i].0.contains('\0')) ==> r is Ok,
{
    let mut out: Vec<u8> = Vec::new();
    d.to_writer(&mut out).map(|_| out)
}

/// Relies on bson::Document::from_reader, to read a document from bytes.
#[verifier::external_body]
fn decode_document(b: &[u8]) -> (r: Result<bson::Document, bson::de::Error>)
    ensures
        r is Ok <==> bson_decoded(b@) is Some,
        r matches Ok(d) ==> bson_decoded(b@) == Some(doc_entries(d)),
{
    bson::Document::from_reader(b)
}

/// Why an export or an import failed.
#[derive(Debug, Clone, Copy, PartialEq, Eq, Structural)]
pub enum SerializationError {
    /// The document could not be written.
    Encode,
    /// The bytes are not a document.
    Decode,
    /// The document does not hold a registry.
    Malformed,
}

/// The registry that a document's entries hold, read in order: every value
/// must be a well-formed record, and a later record replaces an earlier one
/// with the same identifier.
pub open spec fn parse_registry(entries: Seq<(Seq<char>, Option<Seq<Seq<char>>>)>) -> Option<
    Seq<LocationView>,
>
    decreases entries.len(),
{
    if entries.len() == 0 {
        Some(Seq::empty())
    } else {
        match parse_registry(entries.drop_last()) {
            Some(acc) => match entries.last().1 {
                Some(items) => match parse_record(entries.last().0, items) {
                    Some(l) => Some(upserted(acc, l)),
                    None => None,
                },
                None => None,
            },
            None => None,
        }
    }
}

/// Entries that write the records of `s` one by one read back as `s`.
proof fn lemma_parse_written(entries: Seq<(Seq<char>, Option<Seq<Seq<char>>>)>, s: Seq<LocationView>)
    requires
        entries.len() == s.len(),
        unique_ids(s),
        forall|j: int|
            0 <= j < s.len() ==> (#[trigger] entries[j]).1 is Some && parse_record(
                entries[j].0,
                entries[j].1->0,
            ) == Some(s[j]),
    ensures
        parse_registry(entries) == Some(s),
    decreases s.len(),
{
    if s.len() > 0 {
        let n = s.len() - 1;
        assert forall|j: int| 0 <= j < n implies (#[trigger] entries.drop_last()[j]).1 is Some
            && parse_record(entries.drop_last()[j].0, entries.drop_last()[j].1->0) == Some(
            s.drop_last()[j],
        ) by {
            assert(entries.drop_last()[j] == entries[j]);
        }
        lemma_parse_written(entries.drop_last(), s.drop_last());
        assert(!has_id(s.drop_last(), s.last().id));
        assert(s.drop_last().push(s.last()) =~= s);
    } else {
        assert(s =~= Seq::<LocationView>::empty());
    }
}

/// Once a prefix of the entries fails to read, the whole document fails.
proof fn lemma_registry_prefix_fails(entries: Seq<(Seq<char>, Option<Seq<Seq<char>>>)>, n: int)
    requires
        0 <= n <= entries.len(),
        parse_registry(entries.take(n)) is None,
    ensures
        parse_registry(entries) is None,
    decreases entries.len() - n,
{
    if n < entries.len() {
        assert(entries.take(n + 1).drop_last() =~= entries.take(n));
        lemma_registry_prefix_fails(entries, n + 1);
    } else {
        assert(entries.take(n) =~= entries);
    }
}

impl Locations {
    /// The registry as one binary document; importing the bytes gives the
    /// same records back, in the same order.
    pub fn to_bin_data(&self) -> (r: Result<Vec<u8>, SerializationError>)
        ensures
            r is Ok,
            r matches Ok(b) ==> exported(b@, self@),
    {
        let all = self.locations_in_random_order();
        let ghost s = self@;
        let mut doc = bson::Document::new();
        let mut i: usize = 0;
        while i < all.len()
            invariant
                i <= all@.len(),
                s == self@,
                all@.map_values(|l: Location| l@) == s,
                unique_ids(s),
                doc_entries(doc).len() == i,
                forall|j: int|
                    0 <= j < i ==> (#[trigger] doc_entries(doc)[j]).0 == record_key(s[j].id)
                        && doc_entries(doc)[j].1 is Some && parse_record(
                        doc_entries(doc)[j].0,
                        doc_entries(doc)[j].1->0,
                    ) == Some(s[j]),
            decreases all@.len() - i,
        {
            let l = &all[i];
            assert(l@ == s[i as int]);
            let key = write_key(l.get_id());
            let items = write_record(l);
            let ghost before = doc_entries(doc);
            proof {
                assert forall|j: int| 0 <= j < before.len() implies before[j].0 != key@ by {
                    lemma_key_round_trip(s[j].id);
                    lemma_key_round_trip(s[i as int].id);
                    assert(s[j].id != s[i as int].id);
                }
            }
            push_string_list(&mut doc, key, items);
            assert forall|j: int| 0 <= j < i + 1 implies (#[trigger] doc_entries(doc)[j]).0
                == record_key(s[j].id) && doc_entries(doc)[j].1 is Some && parse_record(
                doc_entries(doc)[j].0,
                doc_entries(doc)[j].1->0,
            ) == Some(s[j]) by {
                if j < i {
                    assert(doc_entries(doc)[j] == before[j]);
                }
            }
            i = i + 1;
        }
        proof {
            lemma_parse_written(doc_entries(doc), s);
            assert forall|j: int| 0 <= j < doc_entries(doc).len() implies (#[trigger] doc_entries(doc)[j]).1 is Some
                && !doc_entries(doc)[j].0.contains('\0') by {
                lemma_key_round_trip(s[j].id);
                if doc_entries(doc)[j].0.contains('\0') {
                    let k = choose|k: int| 0 <= k < record_key(s[j].id).len() && record_key(s[j].id)[k] == '\0';
                    assert(crate::hex::is_hex(record_key(s[j].id)[k]));
                }
            }
        }
        match encode_document(&doc) {
            Ok(bytes) => Ok(bytes),
            Err(_) => Err(SerializationError::Encode),
        }
    }

    /// Reads a registry from the bytes that [`Locations::to_bin_data`]
    /// writes. Malformed bytes give an error and no registry.
    pub fn from_bin_data(bin_data: &[u8]) -> (r: Result<Locations, SerializationError>)
        ensures
            match bson_decoded(bin_data@) {
                None => r == Err::<Locations, SerializationError>(SerializationError::Decode),
                Some(e) => match parse_registry(e) {
                    None => r == Err::<Locations, SerializationError>(
                        SerializationError::Malformed,
                    ),
                    Some(s) => r matches Ok(l) && l@ == s,
                },
            },
            r is Ok <==> imported(bin_data@) is Some,
            r matches Ok(l) ==> imported(bin_data@) == Some(l@),
    {
        let doc = match decode_document(bin_data) {
            Ok(d) => d,
            Err(_) => {
                return Err(SerializationError::Decode);
            },
        };
        let ghost entries = doc_entries(doc);
        let keys = document_keys(&doc);
        let mut registry = Locations::new();
        let mut i: usize = 0;
        assert(entries.take(0) =~= Seq::<(Seq<char>, Option<Seq<Seq<char>>>)>::empty());
        while i < keys.len()
            invariant
                i <= keys@.len(),
                entries == doc_entries(doc),
                string_views(keys@) == entry_keys(entries),
                bson_decoded(bin_data@) == Some(entries),
                parse_registry(entries.take(i as int)) == Some(registry@),
            decreases keys@.len() - i,
        {
            assert(string_views(keys@).len() == entries.len());
            let key = &keys[i];
            assert(string_views(keys@)[i as int] == entry_keys(entries)[i as int]);
            assert(key@ == entries[i as int].0);
            assert(entries.take(i + 1).drop_last() =~= entries.take(i as int));
            assert(entries.take(i + 1).last() == entries[i as int]);
            match string_list(&doc, key.as_str()) {
                Some(items) => {
                    match read_record(key, &items) {
                        Some(l) => {
                            registry.push_update(l);
                        },
                        None => {
                            proof {
                                lemma_registry_prefix_fails(entries, i + 1);
                            }
                            return Err(SerializationError::Malformed);
                        },
                    }
                },
                None => {
                    proof {
                        lemma_registry_prefix_fails(entries, i + 1);
                    }
                    return Err(SerializationError::Malformed);
                },
            }
            i = i + 1;
        }
        assert(string_views(keys@).len() == entries.len());
        assert(entries.take(i as int) =~= entries);
        Ok(registry)
    }
}

/// The registry that importing `b` gives, if it gives one.
pub open spec fn imported(b: Seq<u8>) -> Option<Seq<LocationView>> {
    match bson_decoded(b) {
        Some(e) => parse_registry(e),
        None => None,
    }
}

/// The bytes `b` are an export of the records `s`.
pub open spec fn exported(b: Seq<u8>, s: Seq<LocationView>) -> bool {
    bson_decoded(b) is Some && parse_registry(bson_decoded(b)->0) == Some(s)
}

/// Importing an export of a registry gives a registry with the same
/// identifiers and field-equal records, in the same order; an empty registry
/// comes back empty.
pub proof fn lemma_export_round_trip(s: Seq<LocationView>, b: Seq<u8>)
    requires
        exported(b, s),
    ensures
        imported(b) == Some(s),
        imported(b)->0.len() == s.len(),
        forall|i: int| 0 <= i < s.len() ==> #[trigger] imported(b)->0[i] == s[i],
{
}

} // verus!
