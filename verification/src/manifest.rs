//! Crates as read from their manifests.
use vstd::prelude::*;
use toml::Value;

verus! {

/// A Rust crate with the metadata read from its Cargo.toml.
#[derive(Debug, Clone)]
pub struct CrateNode {
    pub name: String,
    pub version: String,
    pub dependencies: Vec<String>,
    pub features: Vec<String>,
    pub path: String,
}

/// The contents of a [`CrateNode`] as mathematical values.
pub ghost struct CrateView {
    pub name: Seq<char>,
    pub version: Seq<char>,
    pub dependencies: Seq<Seq<char>>,
    pub features: Seq<Seq<char>>,
    pub path: Seq<char>,
}

/// The views of a sequence of strings.
pub open spec fn strings_view(v: Seq<String>) -> Seq<Seq<char>> {
    v.map_values(|s: String| s@)
}

impl View for CrateNode {
    type V = CrateView;

    open spec fn view(&self) -> CrateView {
        CrateView {
            name: self.name@,
            version: self.version@,
            dependencies: strings_view(self.dependencies@),
            features: strings_view(self.features@),
            path: self.path@,
        }
    }
}

/// The views of a sequence of crates.
pub open spec fn crates_view(v: Seq<CrateNode>) -> Seq<CrateView> {
    v.map_values(|c: CrateNode| c@)
}

/// A copy of a vector of strings.
pub fn copy_strings(v: &Vec<String>) -> (r: Vec<String>)
    ensures
        strings_view(r@) == strings_view(v@),
{
    let mut r: Vec<String> = Vec::new();
    let mut i: usize = 0;
    while i < v.len()
        invariant
            i <= v.len(),
            r@.len() == i,
            forall|j: int| 0 <= j < i ==> #[trigger] r@[j]@ == v@[j]@,
        decreases v.len() - i,
    {
        r.push(v[i].clone());
        i = i + 1;
    }
    assert(strings_view(r@) =~= strings_view(v@));
    r
}

impl CrateNode {
    /// A copy of this crate, field by field.
    pub fn duplicate(&self) -> (r: CrateNode)
        ensures
            r@ == self@,
    {
        CrateNode {
            name: self.name.clone(),
            version: self.version.clone(),
            dependencies: copy_strings(&self.dependencies),
            features: copy_strings(&self.features),
            path: self.path.clone(),
        }
    }
}


#[verifier::external_type_specification]
#[verifier::external_body]
pub struct ExTomlValue(Value);

#[verifier::external_type_specification]
#[verifier::external_body]
#[verifier::reject_recursive_types(K)]
#[verifier::reject_recursive_types(V)]
pub struct ExTomlMap<K, V>(toml::map::Map<K, V>);

/// What the library reads of a TOML value: a string, a table of keyed
/// entries in the table's order, or some other kind of value.
pub ghost enum TomlModel {
    Str(Seq<char>),
    Table(Seq<(Seq<char>, TomlModel)>),
    Other,
}

/// The data a TOML value holds.
pub uninterp spec fn toml_model(v: Value) -> TomlModel;

/// The entries a TOML table holds, in its order.
pub uninterp spec fn toml_table_model(t: toml::map::Map<String, Value>) -> Seq<(Seq<char>, TomlModel)>;

/// What parsing `content` as a TOML document gives, if it is valid TOML.
pub uninterp spec fn toml_parse_result(content: Seq<char>) -> Option<TomlModel>;

/// The value of the first entry with key `key`, in a table.
pub open spec fn entry_of(entries: Seq<(Seq<char>, TomlModel)>, key: Seq<char>) -> Option<TomlModel>
    decreases entries.len(),
{
    if entries.len() == 0 {
        None
    } else if entries[0].0 == key {
        Some(entries[0].1)
    } else {
        entry_of(entries.drop_first(), key)
    }
}

/// The entry `key` of a table; nothing for a value that is not a table.
pub open spec fn toml_lookup(v: TomlModel, key: Seq<char>) -> Option<TomlModel> {
    match v {
        TomlModel::Table(entries) => entry_of(entries, key),
        _ => None,
    }
}

/// `str::parse::<toml::Value>` (toml's `FromStr for Value`, which reads a
/// whole document); `None` when the text is not valid TOML.
#[verifier::external_body]
fn toml_parse(content: &str) -> (r: Option<Value>)
    ensures
        match r {
            Some(v) => toml_parse_result(content@) == Some(toml_model(v)),
            None => toml_parse_result(content@) is None,
        },
{
    content.parse::<Value>().ok()
}

/// `Value::get` with a string key: the entry of a table, or `None` when the
/// value is not a table or has no such key.
#[verifier::external_body]
fn toml_get<'a>(v: &'a Value, key: &str) -> (r: Option<&'a Value>)
    ensures
        match r {
            Some(x) => toml_lookup(toml_model(*v), key@) == Some(toml_model(*x)),
            None => toml_lookup(toml_model(*v), key@) is None,
        },
{
    v.get(key)
}

/// `Value::as_str`: the string, when the value is a string.
#[verifier::external_body]
fn toml_as_str(v: &Value) -> (r: Option<&str>)
    ensures
        match toml_model(*v) {
            TomlModel::Str(s) => r matches Some(x) && x@ == s,
            _ => r is None,
        },
{
    v.as_str()
}

/// `Value::as_table`: the table, when the value is a table.
#[verifier::external_body]
fn toml_as_table(v: &Value) -> (r: Option<&toml::map::Map<String, Value>>)
    ensures
        match toml_model(*v) {
            TomlModel::Table(entries) => r matches Some(t) && toml_table_model(*t) == entries,
            _ => r is None,
        },
{
    v.as_table()
}

/// `Map::keys`, collected: the keys of a table in its order.
#[verifier::external_body]
fn toml_table_keys(t: &toml::map::Map<String, Value>) -> (r: Vec<String>)
    ensures
        strings_view(r@) == toml_table_model(*t).map_values(|e: (Seq<char>, TomlModel)| e.0),
{
    t.keys().cloned().collect()
}

/// Why a manifest could not be read.
#[derive(Debug, PartialEq, Eq, Clone, Copy)]
pub enum ManifestError {
    /// The text is not valid TOML.
    Parse,
    /// The document has no `[package]` entry.
    MissingPackage,
}

impl ManifestError {
    /// The error's message.
    pub fn message(&self) -> (r: String)
        ensures
            r@ == match self {
                ManifestError::Parse => "failed to parse Cargo.toml"@,
                ManifestError::MissingPackage => "missing [package]"@,
            },
    {
        match self {
            ManifestError::Parse => "failed to parse Cargo.toml".to_string(),
            ManifestError::MissingPackage => "missing [package]".to_string(),
        }
    }
}

/// The string in an optional value, or `default`.
pub open spec fn str_or(v: Option<TomlModel>, default: Seq<char>) -> Seq<char> {
    match v {
        Some(TomlModel::Str(s)) => s,
        _ => default,
    }
}

/// The keys of an optional table, or none.
pub open spec fn keys_or_none(v: Option<TomlModel>) -> Seq<Seq<char>> {
    match v {
        Some(TomlModel::Table(entries)) => entries.map_values(|e: (Seq<char>, TomlModel)| e.0),
        _ => Seq::empty(),
    }
}

/// The crate a parsed manifest describes: name and version from
/// `[package]` ("unknown" and "0.0.0" when missing or not strings), the keys
/// of `[features]`, and the keys of `[dependencies]` then `[dev-dependencies]`.
pub open spec fn crate_of_manifest(doc: TomlModel, path: Seq<char>) -> Result<CrateView, ManifestError> {
    match toml_lookup(doc, "package"@) {
        None => Err(ManifestError::MissingPackage),
        Some(package) => Ok(
            CrateView {
                name: str_or(toml_lookup(package, "name"@), "unknown"@),
                version: str_or(toml_lookup(package, "version"@), "0.0.0"@),
                dependencies: keys_or_none(toml_lookup(doc, "dependencies"@)) + keys_or_none(
                    toml_lookup(doc, "dev-dependencies"@),
                ),
                features: keys_or_none(toml_lookup(doc, "features"@)),
                path: path,
            },
        ),
    }
}

/// A result with the crate taken by its view.
pub open spec fn crate_result_view(r: Result<CrateNode, ManifestError>) -> Result<CrateView, ManifestError> {
    match r {
        Ok(c) => Ok(c@),
        Err(e) => Err(e),
    }
}

/// The string of entry `key` of `v` if it is a string, or `default`.
fn string_entry(v: &Value, key: &str, default: &str) -> (r: String)
    ensures
        r@ == str_or(toml_lookup(toml_model(*v), key@), default@),
{
    match toml_get(v, key) {
        Some(x) => match toml_as_str(x) {
            Some(s) => s.to_string(),
            None => default.to_string(),
        },
        None => default.to_string(),
    }
}

/// The keys of entry `key` of `v` if it is a table, or none.
fn table_keys_entry(v: &Value, key: &str) -> (r: Vec<String>)
    ensures
        strings_view(r@) == keys_or_none(toml_lookup(toml_model(*v), key@)),
{
    match toml_get(v, key) {
        Some(x) => match toml_as_table(x) {
            Some(t) => toml_table_keys(t),
            None => {
                let r: Vec<String> = Vec::new();
                assert(strings_view(r@) =~= Seq::<Seq<char>>::empty());
                r
            },
        },
        None => {
            let r: Vec<String> = Vec::new();
            assert(strings_view(r@) =~= Seq::<Seq<char>>::empty());
            r
        },
    }
}

impl CrateNode {
    /// The crate that a parsed Cargo.toml document describes.
    pub fn from_toml_value(value: &Value, path: &str) -> (r: Result<Self, ManifestError>)
        ensures
            crate_result_view(r) == crate_of_manifest(toml_model(*value), path@),
            r is Ok <==> toml_lookup(toml_model(*value), "package"@) is Some,
            r matches Ok(c) ==> {
                let d = section_keys(toml_model(*value), "dependencies"@);
                let e = section_keys(toml_model(*value), "dev-dependencies"@);
                &&& c.dependencies@.len() == d.len() + e.len()
                &&& forall|i: int| 0 <= i < d.len() ==> c.dependencies@[i]@ == d[i]
                &&& forall|i: int| 0 <= i < e.len() ==> c.dependencies@[d.len() + i]@ == e[i]
            },
    {
        proof {
            lemma_manifest_dependencies(toml_model(*value), path@);
        }
        let package = match toml_get(value, "package") {
            Some(p) => p,
            None => return Err(ManifestError::MissingPackage),
        };
        let name = string_entry(package, "name", "unknown");
        let version = string_entry(package, "version", "0.0.0");
        let features = table_keys_entry(value, "features");
        let mut deps = table_keys_entry(value, "dependencies");
        let mut dev = table_keys_entry(value, "dev-dependencies");
        let ghost d1 = strings_view(deps@);
        let ghost d2 = strings_view(dev@);
        deps.append(&mut dev);
        assert(strings_view(deps@) =~= d1 + d2);
        let r = CrateNode { name, version, dependencies: deps, features, path: path.to_string() };
        assert(r@ =~= crate_of_manifest(toml_model(*value), path@)->Ok_0);
        Ok(r)
    }

    /// Parse a Cargo.toml string into a CrateNode.
    pub fn from_toml_str(content: &str, path: &str) -> (r: Result<Self, ManifestError>)
        ensures
            match toml_parse_result(content@) {
                None => r == Err::<CrateNode, ManifestError>(ManifestError::Parse),
                Some(doc) => crate_result_view(r) == crate_of_manifest(doc, path@),
            },
    {
        match toml_parse(content) {
            Some(v) => Self::from_toml_value(&v, path),
            None => Err(ManifestError::Parse),
        }
    }
}

/// Parse the manifests of a fleet, given as (path, contents) pairs, keeping
/// the crates whose manifests parse, in order.
pub fn scan_cargo_tomls(manifests: &Vec<(String, String)>) -> (r: Vec<CrateNode>)
    ensures
        crates_view(r@) == parsed_crates(manifests@),
        exists|ix: Seq<int>|
            #[trigger] kept_positions(manifests@, ix) && crates_view(r@) == ix.map_values(
                |i: int| own_crate(manifests@[i])->Some_0,
            ),
{
    proof {
        lemma_scan_each_on_its_own(manifests@);
    }
    let mut crates: Vec<CrateNode> = Vec::new();
    let mut i: usize = 0;
    while i < manifests.len()
        invariant
            i <= manifests@.len(),
            crates_view(crates@) == parsed_crates(manifests@.take(i as int)),
        decreases manifests@.len() - i,
    {
        let (path, content) = &manifests[i];
        let ghost before = crates_view(crates@);
        assert(manifests@.take(i + 1).drop_last() =~= manifests@.take(i as int));
        match CrateNode::from_toml_str(content.as_str(), path.as_str()) {
            Ok(krate) => {
                crates.push(krate);
                assert(crates_view(crates@) =~= before.push(krate@));
            },
            Err(_) => {},
        }
        i = i + 1;
    }
    assert(manifests@.take(manifests@.len() as int) =~= manifests@);
    crates
}

/// The crates of the manifests that parse, in order.
pub open spec fn parsed_crates(manifests: Seq<(String, String)>) -> Seq<CrateView>
    decreases manifests.len(),
{
    if manifests.len() == 0 {
        Seq::empty()
    } else {
        let rest = parsed_crates(manifests.drop_last());
        let (path, content) = manifests.last();
        match toml_parse_result(content@) {
            Some(doc) => match crate_of_manifest(doc, path@) {
                Ok(c) => rest.push(c),
                Err(_) => rest,
            },
            None => rest,
        }
    }
}


/// The keys of the table `key` of a document, in the table's order; none
/// when the document has no such table.
pub open spec fn section_keys(doc: TomlModel, key: Seq<char>) -> Seq<Seq<char>> {
    match toml_lookup(doc, key) {
        Some(TomlModel::Table(entries)) => Seq::new(entries.len(), |i: int| entries[i].0),
        _ => Seq::empty(),
    }
}

/// The dependencies of a crate read from a manifest are the keys of its
/// `[dependencies]` table followed by every key of its `[dev-dependencies]`
/// table, each table read on its own; and a manifest is read exactly when
/// it has a `[package]` entry.
pub proof fn lemma_manifest_dependencies(doc: TomlModel, path: Seq<char>)
    ensures
        crate_of_manifest(doc, path) is Ok <==> toml_lookup(doc, "package"@) is Some,
        crate_of_manifest(doc, path) matches Ok(c) ==> {
            let d = section_keys(doc, "dependencies"@);
            let e = section_keys(doc, "dev-dependencies"@);
            &&& c.dependencies.len() == d.len() + e.len()
            &&& forall|i: int| 0 <= i < d.len() ==> c.dependencies[i] == d[i]
            &&& forall|i: int| 0 <= i < e.len() ==> c.dependencies[d.len() + i] == e[i]
        },
{
    if crate_of_manifest(doc, path) is Ok {
        let c = crate_of_manifest(doc, path)->Ok_0;
        let d = section_keys(doc, "dependencies"@);
        let e = section_keys(doc, "dev-dependencies"@);
        assert(keys_or_none(toml_lookup(doc, "dependencies"@)) =~= d);
        assert(keys_or_none(toml_lookup(doc, "dev-dependencies"@)) =~= e);
    }
}

/// The crate that one manifest gives on its own, if it parses.
pub open spec fn own_crate(m: (String, String)) -> Option<CrateView> {
    match toml_parse_result(m.1@) {
        Some(doc) => match crate_of_manifest(doc, m.0@) {
            Ok(c) => Some(c),
            Err(_) => None,
        },
        None => None,
    }
}

/// `ix` lists, in increasing order, exactly the positions of the manifests
/// that give a crate on their own.
pub open spec fn kept_positions(manifests: Seq<(String, String)>, ix: Seq<int>) -> bool {
    &&& forall|k: int, l: int| 0 <= k < l < ix.len() ==> #[trigger] ix[k] < #[trigger] ix[l]
    &&& forall|k: int| 0 <= k < ix.len() ==> 0 <= #[trigger] ix[k] < manifests.len()
    &&& forall|i: int| 0 <= i < manifests.len() ==> (#[trigger] own_crate(manifests[i]) is Some <==> ix.contains(i))
}

/// Scanning keeps each manifest on its own content alone: the crates are,
/// in order, those of the manifests that parse by themselves, whatever
/// their neighbours hold.
pub proof fn lemma_scan_each_on_its_own(manifests: Seq<(String, String)>)
    ensures
        exists|ix: Seq<int>|
            #[trigger] kept_positions(manifests, ix) && parsed_crates(manifests) == ix.map_values(
                |i: int| own_crate(manifests[i])->Some_0,
            ),
    decreases manifests.len(),
{
    if manifests.len() == 0 {
        let ix = Seq::<int>::empty();
        assert(kept_positions(manifests, ix));
        assert(parsed_crates(manifests) =~= ix.map_values(|i: int| own_crate(manifests[i])->Some_0));
    } else {
        let rest = manifests.drop_last();
        lemma_scan_each_on_its_own(rest);
        let ix0 = choose|ix: Seq<int>|
            #[trigger] kept_positions(rest, ix) && parsed_crates(rest) == ix.map_values(
                |i: int| own_crate(rest[i])->Some_0,
            );
        let last = manifests.len() - 1;
        assert(manifests.last() == manifests[last]);
        assert(ix0.map_values(|i: int| own_crate(rest[i])->Some_0) =~= ix0.map_values(
            |i: int| own_crate(manifests[i])->Some_0,
        )) by {
            assert forall|k: int| 0 <= k < ix0.len() implies rest[ix0[k]] == manifests[ix0[k]] by {}
        }
        if own_crate(manifests[last]) is Some {
            let ix = ix0.push(last);
            assert forall|i: int| 0 <= i < manifests.len() implies (#[trigger] own_crate(manifests[i]) is Some
                <==> ix.contains(i)) by {
                crate::model::lemma_push_contains(ix0, last, i);
                if i < last {
                    assert(rest[i] == manifests[i]);
                    assert(!ix0.contains(last)) by {
                        if ix0.contains(last) {
                            let k = choose|k: int| 0 <= k < ix0.len() && ix0[k] == last;
                        }
                    }
                }
            }
            assert forall|k: int, l: int| 0 <= k < l < ix.len() implies #[trigger] ix[k] < #[trigger] ix[l] by {
                if l == ix.len() - 1 {
                    assert(ix[k] == ix0[k]);
                } else {
                    assert(ix[k] == ix0[k] && ix[l] == ix0[l]);
                }
            }
            assert forall|k: int| 0 <= k < ix.len() implies 0 <= #[trigger] ix[k] < manifests.len() by {
                if k < ix0.len() {
                    assert(ix[k] == ix0[k]);
                }
            }
            assert(kept_positions(manifests, ix));
            assert(parsed_crates(manifests) =~= ix.map_values(|i: int| own_crate(manifests[i])->Some_0));
        } else {
            assert forall|i: int| 0 <= i < manifests.len() implies (#[trigger] own_crate(manifests[i]) is Some
                <==> ix0.contains(i)) by {
                if i < last {
                    assert(rest[i] == manifests[i]);
                } else {
                    if ix0.contains(i) {
                        let k = choose|k: int| 0 <= k < ix0.len() && ix0[k] == i;
                    }
                }
            }
            assert(kept_positions(manifests, ix0));
            assert(parsed_crates(manifests) =~= ix0.map_values(|i: int| own_crate(manifests[i])->Some_0));
        }
    }
}

/// The names of crates, as mathematical values.
pub open spec fn view_names(v: Seq<CrateView>) -> Seq<Seq<char>> {
    v.map_values(|c: CrateView| c.name)
}

/// The crates, keeping only the first crate of each name, in order.
pub open spec fn first_of_each_name(crates: Seq<CrateView>) -> Seq<CrateView>
    decreases crates.len(),
{
    if crates.len() == 0 {
        Seq::empty()
    } else {
        let rest = first_of_each_name(crates.drop_last());
        if view_names(crates.drop_last()).contains(crates.last().name) {
            rest
        } else {
            rest.push(crates.last())
        }
    }
}

/// Keeping the first crate of each name leaves each name once, and no name
/// is lost.
pub proof fn lemma_first_of_each_name(crates: Seq<CrateView>)
    ensures
        view_names(first_of_each_name(crates)).no_duplicates(),
        forall|x: Seq<char>|
            #[trigger] view_names(first_of_each_name(crates)).contains(x) <==> view_names(crates).contains(x),
    decreases crates.len(),
{
    if crates.len() > 0 {
        let rest = crates.drop_last();
        let c = crates.last();
        lemma_first_of_each_name(rest);
        let f = first_of_each_name(rest);
        assert(view_names(crates) =~= view_names(rest).push(c.name));
        assert forall|x: Seq<char>| #[trigger] view_names(crates).contains(x) <==> (view_names(rest).contains(x) || x == c.name) by {
            crate::model::lemma_push_contains(view_names(rest), c.name, x);
        }
        if !view_names(rest).contains(c.name) {
            assert(view_names(f.push(c)) =~= view_names(f).push(c.name));
            assert forall|x: Seq<char>| #[trigger] view_names(f.push(c)).contains(x) <==> (view_names(f).contains(x) || x == c.name) by {
                crate::model::lemma_push_contains(view_names(f), c.name, x);
            }
            assert(!view_names(f).contains(c.name));
            assert(view_names(f.push(c)).no_duplicates()) by {
                let g = view_names(f.push(c));
                assert forall|i: int, j: int| 0 <= i < g.len() && 0 <= j < g.len() && i != j implies g[i] != g[j] by {
                    if i == g.len() - 1 {
                        assert(view_names(f).contains(g[j]));
                    } else if j == g.len() - 1 {
                        assert(view_names(f).contains(g[i]));
                    } else {
                        assert(g[i] == view_names(f)[i]);
                        assert(g[j] == view_names(f)[j]);
                    }
                }
            }
        }
    }
}

/// Deduplicate crates by name, keeping the first seen.
pub fn dedup_by_name(crates: &Vec<CrateNode>) -> (r: Vec<CrateNode>)
    ensures
        crates_view(r@) == first_of_each_name(crates_view(crates@)),
        view_names(crates_view(r@)).no_duplicates(),
        forall|x: Seq<char>| #[trigger]
            view_names(crates_view(r@)).contains(x) <==> view_names(crates_view(crates@)).contains(x),
{
    let ghost all = crates_view(crates@);
    let mut seen: Vec<String> = Vec::new();
    let mut r: Vec<CrateNode> = Vec::new();
    let mut i: usize = 0;
    while i < crates.len()
        invariant
            all == crates_view(crates@),
            i <= crates@.len(),
            forall|x: Seq<char>| #[trigger] strings_view(seen@).contains(x) <==> view_names(all.take(i as int)).contains(x),
            crates_view(r@) == first_of_each_name(all.take(i as int)),
        decreases crates@.len() - i,
    {
        let c = &crates[i];
        let ghost prefix = all.take(i as int);
        assert(all.take(i + 1).drop_last() =~= prefix);
        assert(all.take(i + 1).last() == c@);
        assert(view_names(all.take(i + 1)) =~= view_names(prefix).push(c.name@));
        let mut found = false;
        let mut j: usize = 0;
        while j < seen.len()
            invariant
                j <= seen@.len(),
                found == strings_view(seen@).take(j as int).contains(c.name@),
            decreases seen@.len() - j,
        {
            assert(strings_view(seen@).take(j + 1) =~= strings_view(seen@).take(j as int).push(seen@[j as int]@));
            proof {
                crate::model::lemma_push_contains(strings_view(seen@).take(j as int), seen@[j as int]@, c.name@);
            }
            if seen[j] == c.name {
                found = true;
            }
            j = j + 1;
        }
        assert(strings_view(seen@).take(seen@.len() as int) =~= strings_view(seen@));
        let ghost sv = strings_view(seen@);
        let ghost rv = crates_view(r@);
        if !found {
            seen.push(c.name.clone());
            r.push(c.duplicate());
            assert(strings_view(seen@) =~= sv.push(c.name@));
            assert(crates_view(r@) =~= rv.push(c@));
        }
        proof {
            assert forall|x: Seq<char>| #[trigger] strings_view(seen@).contains(x) <==> view_names(all.take(i + 1)).contains(x) by {
                crate::model::lemma_push_contains(sv, c.name@, x);
                crate::model::lemma_push_contains(view_names(prefix), c.name@, x);
            }
        }
        i = i + 1;
    }
    assert(all.take(crates@.len() as int) =~= all);
    proof {
        lemma_first_of_each_name(all);
    }
    r
}

} // verus!
