//! Where the pipeline keeps its files below a project's root.

use vstd::prelude::*;
use crate::asset::path::{join, joined, with_extension, PathExt};
use crate::asset::{decimal, AssetId};

verus! {

/// The directories and files of a project, all below one root.
pub struct AssetConfig {
    root: String,
    assets: String,
    preferences: String,
    cache: String,
    temp: String,
}

impl View for AssetConfig {
    type V = Seq<char>;

    /// The root, of which the other paths are functions.
    closed spec fn view(&self) -> Seq<char> {
        self.root@
    }
}

/// The directory of the source files below `root`.
pub open spec fn assets_path(root: Seq<char>) -> Seq<char> {
    joined(root, "Assets"@)
}

/// The directory of the user's configuration below `root`.
pub open spec fn preferences_path(root: Seq<char>) -> Seq<char> {
    joined(root, "Preferences"@)
}

/// The cache directory below `root`.
pub open spec fn cache_path(root: Seq<char>) -> Seq<char> {
    joined(root, ".cache"@)
}

/// The directory of temporary files below `root`.
pub open spec fn temp_path(root: Seq<char>) -> Seq<char> {
    joined(root, ".temp"@)
}

/// The file of the library index below `root`.
pub open spec fn library_path(root: Seq<char>) -> Seq<char> {
    joined(cache_path(root), "assets.lib"@)
}

/// The directory of the artifacts below `root`.
pub open spec fn artifacts_path(root: Seq<char>) -> Seq<char> {
    joined(cache_path(root), "artifacts"@)
}

/// The artifact file of the asset `id` below `root`: it is named by the
/// id's decimal numeral.
pub open spec fn artifact_path(root: Seq<char>, id: AssetId) -> Seq<char> {
    joined(artifacts_path(root), decimal(id.0 as nat))
}

/// The directory of the reverse-dependency files below `root`.
pub open spec fn dependents_dir(root: Seq<char>) -> Seq<char> {
    joined(temp_path(root), "dependents"@)
}

/// The file that holds the dependents of the asset `id` below `root`.
pub open spec fn dependents_path(root: Seq<char>, id: AssetId) -> Seq<char> {
    joined(dependents_dir(root), decimal(id.0 as nat))
}

/// The sidecar of the source at `path`.
pub open spec fn metadata_path(path: Seq<char>) -> Seq<char> {
    with_extension(path, "meta"@)
}

/// Two names that do not start with `/` lie at different places below one
/// directory.
pub proof fn lemma_joined_injective(base: Seq<char>, a: Seq<char>, b: Seq<char>)
    requires
        a.len() > 0 && a[0] != '/',
        b.len() > 0 && b[0] != '/',
        joined(base, a) == joined(base, b),
    ensures
        a == b,
{
    if base.len() == 0 {
    } else if base.last() == '/' {
        assert(a =~= joined(base, a).skip(base.len() as int));
        assert(b =~= joined(base, b).skip(base.len() as int));
    } else {
        assert(a =~= joined(base, a).skip(base.len() as int + 1));
        assert(b =~= joined(base, b).skip(base.len() as int + 1));
    }
}

/// A numeral does not start with `/`.
pub proof fn lemma_decimal_is_a_name(n: nat)
    ensures
        decimal(n).len() > 0,
        decimal(n)[0] != '/',
    decreases n,
{
    if n >= 10 {
        lemma_decimal_is_a_name(n / 10);
    }
}

/// Two assets have their dependents, and their artifacts, in different files.
pub proof fn lemma_places_differ(root: Seq<char>, a: AssetId, b: AssetId)
    requires
        a != b,
    ensures
        dependents_path(root, a) != dependents_path(root, b),
        artifact_path(root, a) != artifact_path(root, b),
{
    lemma_decimal_is_a_name(a.0 as nat);
    lemma_decimal_is_a_name(b.0 as nat);
    if dependents_path(root, a) == dependents_path(root, b) {
        lemma_joined_injective(
            dependents_dir(root),
            decimal(a.0 as nat),
            decimal(b.0 as nat),
        );
        crate::asset::lemma_decimal_injective(a.0 as nat, b.0 as nat);
    }
    if artifact_path(root, a) == artifact_path(root, b) {
        lemma_joined_injective(
            artifacts_path(root),
            decimal(a.0 as nat),
            decimal(b.0 as nat),
        );
        crate::asset::lemma_decimal_injective(a.0 as nat, b.0 as nat);
    }
}

/// Every character of a numeral is a digit.
pub proof fn lemma_decimal_digits(n: nat, i: int)
    requires
        0 <= i < decimal(n).len(),
    ensures
        exists|d: nat| d < 10 && decimal(n)[i] == #[trigger] crate::asset::digit_char(d),
        decimal(n)[i] != '/',
        decimal(n)[i] != 'a',
    decreases n,
{
    if n < 10 {
        assert(decimal(n)[i] == crate::asset::digit_char(n));
    } else {
        if i < decimal(n / 10).len() {
            lemma_decimal_digits(n / 10, i);
            assert(decimal(n)[i] == decimal(n / 10)[i]);
        } else {
            assert(decimal(n)[i] == crate::asset::digit_char(n % 10));
        }
    }
}

/// A name below a directory ends the path: the last characters of the path
/// are those of the name.
pub proof fn lemma_joined_ends(base: Seq<char>, part: Seq<char>)
    requires
        part.len() > 0,
        part[0] != '/',
    ensures
        joined(base, part).len() >= part.len(),
        joined(base, part).skip(joined(base, part).len() - part.len()) == part,
        base.len() > 0 ==> joined(base, part).len() > part.len(),
{
    let whole = joined(base, part);
    assert(whole.skip(whole.len() - part.len()) =~= part);
}

/// A numeral below a directory whose name does not end in `/`: the path is
/// the directory, a `/`, and the numeral.
pub proof fn lemma_numbered(directory: Seq<char>, n: nat)
    requires
        directory.len() > 0,
        directory.last() != '/',
    ensures
        joined(directory, decimal(n)) == directory + seq!['/'] + decimal(n),
{
    lemma_decimal_is_a_name(n);
}

/// The file of the dependents of an asset is no artifact and no sidecar.
pub proof fn lemma_dependents_apart(root: Seq<char>, dep: AssetId, id: AssetId, path: Seq<char>)
    ensures
        dependents_path(root, dep) != artifact_path(root, id),
        dependents_path(root, dep) != metadata_path(path),
{
    reveal_strlit("meta");
    reveal_strlit("artifacts");
    reveal_strlit("dependents");
    let number = decimal(dep.0 as nat);
    let other = decimal(id.0 as nat);
    lemma_decimal_is_a_name(dep.0 as nat);
    lemma_decimal_is_a_name(id.0 as nat);
    let place = dependents_path(root, dep);
    lemma_joined_ends(dependents_dir(root), number);
    lemma_decimal_digits(dep.0 as nat, number.len() - 1);
    assert(place.last() == number.last()) by {
        assert(place.skip(place.len() - number.len())[number.len() - 1] == number[number.len()
            - 1]);
    }
    assert(metadata_path(path).last() == 'a');

    let d = dependents_dir(root);
    let a = artifacts_path(root);
    lemma_joined_ends(temp_path(root), "dependents"@);
    lemma_joined_ends(cache_path(root), "artifacts"@);
    assert(d.len() >= 10 && d[d.len() - 3] == 'n' && d.last() == 's') by {
        let tail = d.skip(d.len() - 10);
        assert(tail[7] == 'n' && tail[9] == 's');
    }
    assert(a.len() >= 9 && a[a.len() - 3] == 'c' && a.last() == 's') by {
        let tail = a.skip(a.len() - 9);
        assert(tail[6] == 'c' && tail[8] == 's');
    }
    lemma_numbered(d, dep.0 as nat);
    lemma_numbered(a, id.0 as nat);
    let left = d + seq!['/'] + number;
    let right = a + seq!['/'] + other;
    if left == right {
        if d.len() < a.len() {
            assert(right[a.len() as int] == '/');
            assert(left[a.len() as int] == number[a.len() - d.len() - 1]);
            lemma_decimal_digits(dep.0 as nat, a.len() - d.len() - 1);
        } else if a.len() < d.len() {
            assert(left[d.len() as int] == '/');
            assert(right[d.len() as int] == other[d.len() - a.len() - 1]);
            lemma_decimal_digits(id.0 as nat, d.len() - a.len() - 1);
        } else {
            assert(left[d.len() - 3] == d[d.len() - 3]);
            assert(right[a.len() - 3] == a[a.len() - 3]);
        }
    }
}

impl AssetConfig {
    #[verifier::type_invariant]
    spec fn paths_follow_root(&self) -> bool {
        &&& self.assets@ == assets_path(self.root@)
        &&& self.preferences@ == preferences_path(self.root@)
        &&& self.cache@ == cache_path(self.root@)
        &&& self.temp@ == temp_path(self.root@)
    }

    pub fn new(root: &str) -> (config: AssetConfig)
        ensures
            config@ == root@,
    {
        AssetConfig {
            assets: join(root, "Assets"),
            preferences: join(root, "Preferences"),
            cache: join(root, ".cache"),
            temp: join(root, ".temp"),
            root: String::from_str(root),
        }
    }

    pub fn root(&self) -> (path: &str)
        ensures
            path@ == self@,
    {
        self.root.as_str()
    }

    pub fn assets(&self) -> (path: &str)
        ensures
            path@ == assets_path(self@),
    {
        proof {
            use_type_invariant(self);
        }
        self.assets.as_str()
    }

    pub fn preferences(&self) -> (path: &str)
        ensures
            path@ == preferences_path(self@),
    {
        proof {
            use_type_invariant(self);
        }
        self.preferences.as_str()
    }

    pub fn cache(&self) -> (path: &str)
        ensures
            path@ == cache_path(self@),
    {
        proof {
            use_type_invariant(self);
        }
        self.cache.as_str()
    }

    pub fn temp(&self) -> (path: &str)
        ensures
            path@ == temp_path(self@),
    {
        proof {
            use_type_invariant(self);
        }
        self.temp.as_str()
    }

    pub fn library(&self) -> (path: String)
        ensures
            path@ == library_path(self@),
    {
        join(self.cache(), "assets.lib")
    }

    pub fn artifacts(&self) -> (path: String)
        ensures
            path@ == artifacts_path(self@),
    {
        join(self.cache(), "artifacts")
    }

    pub fn artifact(&self, id: &AssetId) -> (path: String)
        ensures
            path@ == artifact_path(self@, *id),
    {
        let directory = self.artifacts();
        let name = id.to_string();
        join(directory.as_str(), name.as_str())
    }

    /// The file that holds the ids of the assets that depend on `id`.
    pub fn dependents(&self, id: &AssetId) -> (path: String)
        ensures
            path@ == dependents_path(self@, *id),
    {
        let directory = join(self.temp(), "dependents");
        let name = id.to_string();
        join(directory.as_str(), name.as_str())
    }

    pub fn metadata(path: &str) -> (sidecar: String)
        ensures
            sidecar@ == metadata_path(path@),
    {
        path.append_extension("meta")
    }
}

} // verus!
