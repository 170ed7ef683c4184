//! The sidecar document of a source: a TOML table with the fields `id` and
//! `settings`, read and written through the `toml` crate.

use vstd::prelude::*;
use vstd::utf8::{decode_utf8, valid_utf8};
use crate::asset::{AssetId, AssetMetadata, Settings};
use crate::asset::config::metadata_path;
use crate::asset::io::AssetIoError;

verus! {

/// A TOML value, as the `toml` crate defines it.
#[verifier::external_type_specification]
#[verifier::external_body]
pub struct ExTomlValue(toml::Value);

/// The map behind a TOML table, as the `toml` crate defines it.
#[verifier::external_type_specification]
#[verifier::external_body]
#[verifier::reject_recursive_types(K)]
#[verifier::reject_recursive_types(V)]
pub struct ExTomlMap<K, V>(toml::map::Map<K, V>);

/// The error of the `toml` crate's parser.
#[verifier::external_type_specification]
#[verifier::external_body]
pub struct ExTomlReadError(toml::de::Error);

/// The error of the `toml` crate's writer.
#[verifier::external_type_specification]
#[verifier::external_body]
pub struct ExTomlWriteError(toml::ser::Error);

/// What `toml::from_str` makes of a text at the type `toml::Table`: the
/// table that the document holds, or nothing where the text is no document.
pub uninterp spec fn parsed(text: Seq<char>) -> Option<toml::Table>;

/// What `toml::to_string` makes of a table: the table as a TOML document, or
/// nothing where the writer refuses the table.
pub uninterp spec fn rendered(table: toml::Table) -> Option<Seq<char>>;

/// What a table holds: the value that `toml::map::Map::get` finds under
/// each key.
pub uninterp spec fn table_entries(table: toml::Table) -> Map<Seq<char>, toml::Value>;

/// What `toml::Value::as_integer` finds in a value: the integer, where the
/// value is one.
pub uninterp spec fn integer_in(value: toml::Value) -> Option<i64>;

/// `toml::from_str` at the type `toml::Table`: the table that a TOML document
/// holds, or the parser's error. The same text gives the same table.
#[verifier::external_body]
fn parse_table(text: &str) -> (table: Result<toml::Table, toml::de::Error>)
    ensures
        match table {
            Ok(t) => parsed(text@) == Some(t),
            Err(_) => parsed(text@) is None,
        },
{
    toml::from_str::<toml::Table>(text)
}

/// `toml::to_string` on a table: the table as a TOML document, or the
/// writer's error. The same table gives the same text.
#[verifier::external_body]
fn render_table(table: &toml::Table) -> (text: Result<String, toml::ser::Error>)
    ensures
        match text {
            Ok(t) => rendered(*table) == Some(t@),
            Err(_) => rendered(*table) is None,
        },
{
    toml::to_string(table)
}

/// `toml::map::Map::new`: a table that holds nothing.
#[verifier::external_body]
fn empty_table() -> (table: toml::Table)
    ensures
        forall|key: Seq<char>| !(#[trigger] table_entries(table).contains_key(key)),
{
    toml::Table::new()
}

/// `toml::map::Map::insert`: puts `value` under `key`, in place of what
/// stood there; the other entries stay.
#[verifier::external_body]
fn table_insert(table: &mut toml::Table, key: &str, value: toml::Value)
    ensures
        table_entries(*final(table)) == table_entries(*old(table)).insert(key@, value),
{
    table.insert(key.to_string(), value);
}

/// `toml::map::Map::get`: the value under `key`, if the table has one.
#[verifier::external_body]
fn table_get<'a>(table: &'a toml::Table, key: &str) -> (value: Option<&'a toml::Value>)
    ensures
        match value {
            Some(v) => table_entries(*table).contains_key(key@) && table_entries(*table)[key@]
                == *v,
            None => !table_entries(*table).contains_key(key@),
        },
{
    table.get(key)
}

/// `toml::Value::as_integer`: the integer that a value holds, if it is one.
#[verifier::external_body]
fn value_integer(value: &toml::Value) -> (number: Option<i64>)
    ensures
        number == integer_in(*value),
{
    value.as_integer()
}

/// `toml::Value::Integer`: the value that holds the integer `number`, which
/// `as_integer` finds in it.
#[verifier::external_body]
fn integer_value(number: i64) -> (value: toml::Value)
    ensures
        integer_in(value) == Some(number),
{
    toml::Value::Integer(number)
}

/// `Display` of the parser's error: its message.
#[verifier::external_body]
fn read_error_text(error: &toml::de::Error) -> String {
    error.to_string()
}

/// `Display` of the writer's error: its message.
#[verifier::external_body]
fn write_error_text(error: &toml::ser::Error) -> String {
    error.to_string()
}

/// The integer that stands for `id` in a sidecar. TOML integers are signed
/// 64-bit numbers, so the integer has the 64 bits of the id: an id above
/// `i64::MAX` is written as the negative number with the same bits.
pub open spec fn id_integer(id: AssetId) -> i64 {
    if id.0 <= i64::MAX {
        id.0 as i64
    } else {
        (id.0 - 0x1_0000_0000_0000_0000) as i64
    }
}

/// The id that the integer of a sidecar stands for: the id with the same 64 bits.
pub open spec fn integer_id(number: i64) -> AssetId {
    if number >= 0 {
        AssetId(number as u64)
    } else {
        AssetId((number + 0x1_0000_0000_0000_0000) as u64)
    }
}

pub fn integer_of_id(id: AssetId) -> (number: i64)
    ensures
        number == id_integer(id),
{
    if id.0 <= 0x7fff_ffff_ffff_ffff {
        id.0 as i64
    } else {
        let low: u64 = id.0 - 0x8000_0000_0000_0000;
        (low as i64) + i64::MIN
    }
}

pub fn id_of_integer(number: i64) -> (id: AssetId)
    ensures
        id == integer_id(number),
{
    if number >= 0 {
        AssetId(number as u64)
    } else {
        let low: i64 = number - i64::MIN;
        AssetId((low as u64) + 0x8000_0000_0000_0000)
    }
}

/// Every id is read back from its integer, and every integer from its id.
pub proof fn lemma_id_integer_round_trip(id: AssetId, number: i64)
    ensures
        integer_id(id_integer(id)) == id,
        id_integer(integer_id(number)) == number,
{
}

/// The integer that a table holds under `key`, if it holds one there.
pub open spec fn entry_integer(table: toml::Table, key: Seq<char>) -> Option<i64> {
    if table_entries(table).contains_key(key) {
        integer_in(table_entries(table)[key])
    } else {
        None
    }
}

/// The settings that a table holds under `settings`, as the kind `S` reads
/// them, if it holds readable ones.
pub open spec fn entry_settings<S: Settings>(table: toml::Table) -> Option<S> {
    if table_entries(table).contains_key("settings"@) {
        S::read_from(table_entries(table)["settings"@])
    } else {
        None
    }
}

/// The id that a text names: the text is a TOML document whose table holds
/// an integer under `id`, and the id is the one that the integer stands for.
pub open spec fn text_id(text: Seq<char>) -> Option<AssetId> {
    match parsed(text) {
        Some(table) => match entry_integer(table, "id"@) {
            Some(number) => Some(integer_id(number)),
            None => None,
        },
        None => None,
    }
}

/// The metadata that a text holds: the id that it names and the settings
/// that the kind `S` reads from it, where it has both.
pub open spec fn text_metadata<S: Settings>(text: Seq<char>) -> Option<(AssetId, S)> {
    match parsed(text) {
        Some(table) => match text_id(text) {
            Some(id) => match entry_settings::<S>(table) {
                Some(settings) => Some((id, settings)),
                None => None,
            },
            None => None,
        },
        None => None,
    }
}

/// Whether a table is the one of the sidecar of `metadata`: it holds under
/// `id` the integer that stands for the id, under `settings` the TOML form
/// of the settings, and nothing else.
pub open spec fn holds_metadata<S: Settings>(table: toml::Table, metadata: AssetMetadata<S>) -> bool {
    &&& forall|key: Seq<char>| #[trigger]
        table_entries(table).contains_key(key) <==> key == "id"@ || key == "settings"@
    &&& entry_integer(table, "id"@) == Some(id_integer(metadata.id))
    &&& metadata.settings.toml_form() == Some(table_entries(table)["settings"@])
}

/// Whether `text` was written for `metadata`: it is the document of the
/// table of the sidecar of `metadata`.
pub open spec fn names_metadata<S: Settings>(text: Seq<char>, metadata: AssetMetadata<S>) -> bool {
    exists|table: toml::Table| #[trigger]
        rendered(table) == Some(text) && holds_metadata(table, metadata)
}

/// Whether `metadata` has no sidecar: its settings have no TOML form, or
/// the writer refuses the table of its sidecar.
pub open spec fn unwritable<S: Settings>(metadata: AssetMetadata<S>) -> bool {
    metadata.settings.toml_form() is None || exists|table: toml::Table| #[trigger]
        rendered(table) is None && holds_metadata(table, metadata)
}

/// The metadata that a source is imported with: the metadata that its
/// sidecar holds, or, where there is no sidecar or it holds none, the id
/// `id` and the default settings.
pub open spec fn used_metadata<S: Settings>(sidecar: Option<Seq<u8>>, id: AssetId) -> AssetMetadata<
    S,
> {
    let fresh = AssetMetadata { id, settings: S::default_form() };
    match sidecar {
        Some(bytes) => match bytes_metadata::<S>(bytes) {
            Some(pair) => AssetMetadata { id: pair.0, settings: pair.1 },
            None => fresh,
        },
        None => fresh,
    }
}

/// What a store holds at a path, if anything.
pub open spec fn held_at(files: Map<Seq<char>, Seq<u8>>, path: Seq<char>) -> Option<Seq<u8>> {
    if files.contains_key(path) {
        Some(files[path])
    } else {
        None
    }
}

/// Whether `text` was written for `id`: it is the document of a table that
/// holds under `id` the integer that stands for the id.
pub open spec fn names_id(text: Seq<char>, id: AssetId) -> bool {
    exists|table: toml::Table| #[trigger]
        rendered(table) == Some(text) && entry_integer(table, "id"@) == Some(id_integer(id))
}

/// The metadata that the two fields of a sidecar give: both have to be
/// readable, else the document is invalid.
pub fn metadata_of_fields<S: Settings>(id: Option<AssetId>, settings: Option<S>) -> (metadata:
    Result<AssetMetadata<S>, AssetIoError>)
    ensures
        match metadata {
            Ok(m) => id == Some(m.id) && settings == Some(m.settings),
            Err(e) => (id is None || settings is None) && e is InvalidData,
        },
{
    match id {
        Some(id) => match settings {
            Some(settings) => Ok(AssetMetadata::new(id, settings)),
            None => Err(
                AssetIoError::InvalidData(String::from_str("sidecar: no readable settings")),
            ),
        },
        None => Err(AssetIoError::InvalidData(String::from_str("sidecar: no readable id"))),
    }
}

/// The metadata that the bytes of a sidecar hold: the bytes are text, and
/// the text holds metadata.
pub open spec fn bytes_metadata<S: Settings>(bytes: Seq<u8>) -> Option<(AssetId, S)> {
    if valid_utf8(bytes) {
        text_metadata::<S>(decode_utf8(bytes))
    } else {
        None
    }
}

/// The metadata that the sidecar of the source at `path` holds, where the
/// sidecar is there and holds some.
pub open spec fn stored_metadata<S: Settings>(
    files: Map<Seq<char>, Seq<u8>>,
    path: Seq<char>,
) -> Option<(AssetId, S)> {
    let sidecar = metadata_path(path);
    if files.contains_key(sidecar) {
        bytes_metadata::<S>(files[sidecar])
    } else {
        None
    }
}

/// The id that the kind `S` of settings reads from the bytes of a sidecar,
/// where they hold metadata.
pub open spec fn bytes_id<S: Settings>(bytes: Seq<u8>) -> Option<AssetId> {
    match bytes_metadata::<S>(bytes) {
        Some(pair) => Some(pair.0),
        None => None,
    }
}

/// Whether the bytes of a sidecar were written for `id`: they are the text
/// of a document that was written for it.
pub open spec fn written_for(bytes: Seq<u8>, id: AssetId) -> bool {
    valid_utf8(bytes) && names_id(decode_utf8(bytes), id)
}

/// Reads the metadata of a source from the text of its sidecar: exactly the
/// metadata that the text holds. Fields other than `id` and `settings` are
/// passed over. Text that is no TOML document, or that lacks a readable
/// field, is invalid data.
pub fn metadata_of_text<S: Settings>(text: &str) -> (metadata: Result<
    AssetMetadata<S>,
    AssetIoError,
>)
    ensures
        match metadata {
            Ok(m) => text_metadata::<S>(text@) == Some((m.id, m.settings)) && text_id(text@)
                == Some(m.id),
            Err(e) => text_metadata::<S>(text@) is None && e is InvalidData,
        },
{
    match parse_table(text) {
        Ok(table) => {
            let id = match table_get(&table, "id") {
                Some(value) => match value_integer(value) {
                    Some(number) => Some(id_of_integer(number)),
                    None => None,
                },
                None => None,
            };
            let settings = match table_get(&table, "settings") {
                Some(value) => S::from_toml(value),
                None => None,
            };
            metadata_of_fields(id, settings)
        },
        Err(error) => Err(AssetIoError::InvalidData(read_error_text(&error))),
    }
}

/// The text of the sidecar that holds `metadata`: the document of a table
/// with the integer of the id under `id` and the settings under `settings`.
/// Settings without a TOML form, or a table that the writer refuses, are
/// invalid data, and nothing else fails.
pub fn text_of_metadata<S: Settings>(metadata: &AssetMetadata<S>) -> (text: Result<
    String,
    AssetIoError,
>)
    ensures
        match text {
            Ok(t) => names_metadata(t@, *metadata) && names_id(t@, metadata.id),
            Err(e) => unwritable(*metadata) && e is InvalidData,
        },
        metadata.settings.toml_form() is None ==> text is Err,
{
    let number = integer_of_id(metadata.id);
    let settings = match metadata.settings.to_toml() {
        Some(settings) => settings,
        None => {
            return Err(
                AssetIoError::InvalidData(String::from_str("sidecar: settings have no TOML form")),
            );
        },
    };
    let mut table = empty_table();
    table_insert(&mut table, "id", integer_value(number));
    table_insert(&mut table, "settings", settings);
    proof {
        reveal_strlit("id");
        reveal_strlit("settings");
        assert("id"@ != "settings"@) by {
            assert("id"@.len() != "settings"@.len());
        }
        assert(entry_integer(table, "id"@) == Some(number));
        assert(holds_metadata(table, *metadata));
    }
    match render_table(&table) {
        Ok(text) => Ok(text),
        Err(error) => Err(AssetIoError::InvalidData(write_error_text(&error))),
    }
}

} // verus!
