//! Identifiers, type tags and per-source metadata shared by the pipeline.

use vstd::prelude::*;
use vstd::string::StringExecFns;
use std::any::TypeId;
use std::collections::hash_map::DefaultHasher;
use std::hash::Hash;
use std::hash::Hasher;

pub mod artifact;
pub mod bytes;
pub mod config;
pub mod database;
pub mod io;
pub mod memory;
pub mod path;
pub mod set;
pub mod sidecar;

verus! {

/// The type of a ULID, as the `ulid` crate defines it.
#[verifier::external_type_specification]
#[verifier::external_body]
pub struct ExUlid(ulid::Ulid);

/// The type of std's run-time type identifiers.
#[verifier::external_type_specification]
#[verifier::external_body]
pub struct ExTypeId(TypeId);

/// `ulid::Ulid::generate`: a fresh ULID from the clock and a random source.
/// Nothing is claimed of the value.
#[verifier::external_body]
fn fresh_ulid() -> ulid::Ulid {
    ulid::Ulid::generate()
}

/// `Hash::hash` of a ULID, as the `ulid` crate derives it, into a std hasher.
/// Nothing is claimed of what the hasher has then been fed.
#[verifier::external_body]
fn feed_ulid(ulid: &ulid::Ulid, hasher: &mut DefaultHasher) {
    ulid.hash(hasher)
}

/// `TypeId::of`: the run-time identity of the type `T`.
#[verifier::external_body]
fn type_id_of<T: 'static>() -> TypeId {
    TypeId::of::<T>()
}

/// `Hash::hash` of a `TypeId` into a std hasher.
/// Nothing is claimed of what the hasher has then been fed.
#[verifier::external_body]
fn feed_type_id(id: &TypeId, hasher: &mut DefaultHasher) {
    id.hash(hasher)
}

/// The 64-bit tag of the type `T`: the hash of its run-time identity.
pub(crate) fn type_tag<T: 'static>() -> u64 {
    let id = type_id_of::<T>();
    let mut hasher = DefaultHasher::new();
    feed_type_id(&id, &mut hasher);
    hasher.finish()
}

/// A kind of in-memory asset that an importer produces.
pub trait Asset: Send + Sync + 'static {

}

/// The per-importer settings of a source, kept in its sidecar.
pub trait Settings: Sized + Send + Sync + 'static {
    /// The settings that `default_settings` gives: the same every time.
    open spec fn default_form() -> Self {
        arbitrary()
    }

    /// The settings of a source that has no sidecar yet.
    fn default_settings() -> (settings: Self)
        ensures
            settings == Self::default_form(),
    ;

    /// The TOML value that `to_toml` gives for the settings: the same
    /// settings have the same form.
    open spec fn toml_form(&self) -> Option<toml::Value> {
        arbitrary()
    }

    /// The settings as a TOML value, or `None` where they have no such form.
    fn to_toml(&self) -> (value: Option<toml::Value>)
        ensures
            value == self.toml_form(),
    ;

    /// What `from_toml` reads from a TOML value: a kind of settings reads
    /// the same from the same value.
    open spec fn read_from(value: toml::Value) -> Option<Self> {
        arbitrary()
    }

    /// The settings that a TOML value stands for, if any.
    fn from_toml(value: &toml::Value) -> (settings: Option<Self>)
        ensures
            settings == Self::read_from(*value),
    ;
}

/// Identifier of an asset: an opaque 64-bit value that stays with a source
/// for as long as its sidecar exists.
#[derive(Clone, Copy, Debug, PartialEq, Eq, Structural, Hash)]
pub struct AssetId(pub u64);

impl Default for AssetId {
    fn default() -> (id: AssetId)
        ensures
            id == AssetId(0),
    {
        AssetId(0)
    }
}

/// The character of the decimal digit `d`.
pub open spec fn digit_char(d: nat) -> char {
    if d == 0 {
        '0'
    } else if d == 1 {
        '1'
    } else if d == 2 {
        '2'
    } else if d == 3 {
        '3'
    } else if d == 4 {
        '4'
    } else if d == 5 {
        '5'
    } else if d == 6 {
        '6'
    } else if d == 7 {
        '7'
    } else if d == 8 {
        '8'
    } else {
        '9'
    }
}

/// The decimal numeral of `n`, without leading zeros.
pub open spec fn decimal(n: nat) -> Seq<char>
    decreases n,
{
    if n < 10 {
        seq![digit_char(n)]
    } else {
        decimal(n / 10).push(digit_char(n % 10))
    }
}

/// A numeral has at least one digit, and two or more from ten on.
pub proof fn lemma_decimal_len(n: nat)
    ensures
        decimal(n).len() >= 1,
        n >= 10 ==> decimal(n).len() >= 2,
    decreases n,
{
    if n >= 10 {
        lemma_decimal_len(n / 10);
    }
}

/// Two numbers with the same numeral are the same number.
pub proof fn lemma_decimal_injective(a: nat, b: nat)
    requires
        decimal(a) == decimal(b),
    ensures
        a == b,
    decreases a,
{
    lemma_decimal_len(a);
    lemma_decimal_len(b);
    if a < 10 {
        assert(decimal(a).len() == 1);
        assert(b < 10);
        assert(decimal(a)[0] == digit_char(a));
        assert(decimal(b)[0] == digit_char(b));
        lemma_digit_injective(a, b);
    } else {
        assert(b >= 10);
        assert(decimal(a).last() == digit_char(a % 10));
        assert(decimal(b).last() == digit_char(b % 10));
        assert(decimal(a).drop_last() == decimal(a / 10));
        assert(decimal(b).drop_last() == decimal(b / 10));
        lemma_digit_injective(a % 10, b % 10);
        lemma_decimal_injective(a / 10, b / 10);
        assert(a == 10 * (a / 10) + a % 10);
        assert(b == 10 * (b / 10) + b % 10);
    }
}

/// Two digits with the same character are the same digit.
pub proof fn lemma_digit_injective(a: nat, b: nat)
    requires
        a < 10,
        b < 10,
        digit_char(a) == digit_char(b),
    ensures
        a == b,
{
}

fn digit_text(d: u64) -> (text: &'static str)
    requires
        d < 10,
    ensures
        text@ == seq![digit_char(d as nat)],
{
    proof {
        reveal_strlit("0");
        reveal_strlit("1");
        reveal_strlit("2");
        reveal_strlit("3");
        reveal_strlit("4");
        reveal_strlit("5");
        reveal_strlit("6");
        reveal_strlit("7");
        reveal_strlit("8");
        reveal_strlit("9");
    }
    let text = if d == 0 {
        "0"
    } else if d == 1 {
        "1"
    } else if d == 2 {
        "2"
    } else if d == 3 {
        "3"
    } else if d == 4 {
        "4"
    } else if d == 5 {
        "5"
    } else if d == 6 {
        "6"
    } else if d == 7 {
        "7"
    } else if d == 8 {
        "8"
    } else {
        "9"
    };
    assert(text@ =~= seq![digit_char(d as nat)]);
    text
}

/// The decimal numeral of `n`.
pub fn decimal_string(n: u64) -> (text: String)
    ensures
        text@ == decimal(n as nat),
{
    let mut rest: u64 = n / 10;
    let mut text = String::from_str(digit_text(n % 10));
    if n < 10 {
        return text;
    }
    while rest >= 10
        invariant
            rest >= 1,
            decimal(n as nat) == decimal(rest as nat) + text@,
        decreases rest,
    {
        let digit = digit_text(rest % 10);
        proof {
            assert(decimal(rest as nat) == decimal((rest / 10) as nat).push(
                digit_char((rest % 10) as nat),
            ));
            assert(decimal((rest / 10) as nat).push(digit_char((rest % 10) as nat)) + text@
                == decimal((rest / 10) as nat) + (digit@ + text@));
        }
        text = String::from_str(digit).concat(text.as_str());
        rest = rest / 10;
    }
    let lead = digit_text(rest);
    String::from_str(lead).concat(text.as_str())
}

impl AssetId {
    /// A fresh id: the hash of a new ULID. Two calls may give any two values.
    pub fn gen() -> AssetId {
        let ulid = fresh_ulid();
        let mut hasher = DefaultHasher::new();
        feed_ulid(&ulid, &mut hasher);
        AssetId(hasher.finish())
    }

    /// The id as a decimal numeral, as it names an artifact file.
    pub fn to_string(&self) -> (text: String)
        ensures
            text@ == decimal(self.0 as nat),
    {
        decimal_string(self.0)
    }
}

/// Tag of an asset kind, by which the importer registry dispatches.
#[derive(Clone, Copy, Debug, PartialEq, Eq, Structural, Hash)]
pub struct AssetType(pub u64);

impl Default for AssetType {
    fn default() -> (ty: AssetType)
        ensures
            ty == AssetType(0),
    {
        AssetType(0)
    }
}

impl AssetType {
    /// The tag of the asset kind `A`. It depends on `A` alone, in a way that
    /// no contract states.
    pub fn from<A: Asset>() -> AssetType {
        AssetType(type_tag::<A>())
    }

    /// The tag with the value `ty`.
    pub fn dynamic(ty: u64) -> (tag: AssetType)
        ensures
            tag == AssetType(ty),
    {
        AssetType(ty)
    }
}

/// Tag of a kind of settings.
#[derive(Clone, Copy, Debug, PartialEq, Eq, Structural, Hash)]
pub struct SettingsType(pub u64);

impl SettingsType {
    /// The tag of the settings kind `S`.
    pub fn from<S: Settings>() -> SettingsType {
        SettingsType(type_tag::<S>())
    }

    /// The tag with the value `ty`.
    pub fn dynamic(ty: u64) -> (tag: SettingsType)
        ensures
            tag == SettingsType(ty),
    {
        SettingsType(ty)
    }
}

/// What a sidecar holds: the id of the source and its settings.
pub struct AssetMetadata<S: Settings> {
    pub id: AssetId,
    pub settings: S,
}

impl<S: Settings> AssetMetadata<S> {
    pub fn new(id: AssetId, settings: S) -> (metadata: AssetMetadata<S>)
        ensures
            metadata.id == id,
            metadata.settings == settings,
    {
        AssetMetadata { id, settings }
    }

    pub fn id(&self) -> (id: AssetId)
        ensures
            id == self.id,
    {
        self.id
    }

    pub fn settings(&self) -> (settings: &S)
        ensures
            *settings == self.settings,
    {
        &self.settings
    }

    pub fn take(self) -> (parts: (AssetId, S))
        ensures
            parts.0 == self.id,
            parts.1 == self.settings,
    {
        (self.id, self.settings)
    }

    /// The metadata of a source without a sidecar: a fresh id and the default settings.
    pub fn default() -> AssetMetadata<S> {
        AssetMetadata { id: AssetId::gen(), settings: S::default_settings() }
    }
}

} // verus!
