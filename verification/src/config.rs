//! Shortcut configuration: the two forms a configuration file may take,
//! and the merging of files in order of precedence (later files override
//! earlier ones).

use crate::entries::{
    has_key, keys_distinct, map_contains_key, map_entries, map_insert, map_new, map_shift_remove,
    pairs_view, remove_key, Entry,
};
use indexmap::IndexMap;
use std::collections::BTreeMap;
use vstd::prelude::*;

verus! {

/// The two forms of a configuration file.
pub enum ConfigForm {
    /// A map from name to command.
    Mapping(BTreeMap<String, String>),
    /// A list of `[name, command]` pairs, in the file's order.
    Pairs(Vec<(String, String)>),
}

/// What became of one configuration file that exists.
pub enum ConfigSource {
    /// The file could not be read; the reason.
    ReadFailed(String),
    /// The YAML file could not be parsed into a configuration; the reason.
    YamlFailed(String),
    /// The JSONC file could not be parsed into a configuration; the reason.
    JsoncFailed(String),
    /// The file's configuration.
    Loaded(ConfigForm),
}

/// One existing configuration file: its path as displayed, and its content.
pub struct ConfigFile {
    pub path: String,
    pub source: ConfigSource,
}

/// Where a configuration file may stand. The global files, under the home
/// directory, come first; the project files of the current directory come
/// last and so take precedence.
#[derive(Clone, Copy, Debug, PartialEq, Eq, Structural)]
pub enum ConfigLocation {
    /// `~/.config/shaka.yaml`
    HomeConfigYaml,
    /// `~/.config/shaka.json`
    HomeConfigJson,
    /// `~/.shaka.yaml`
    HomeYaml,
    /// `~/.shaka.json`
    HomeJson,
    /// `./.shaka.yaml`
    ProjectYaml,
    /// `./.shaka.json`
    ProjectJson,
}

/// The format of a configuration file.
#[derive(Clone, Copy, Debug, PartialEq, Eq, Structural)]
pub enum ConfigFormat {
    /// YAML, for files whose extension is `yaml`.
    Yaml,
    /// JSON with comments, for the other files.
    Jsonc,
}

/// The places to look for configuration files, in order of precedence
/// (later files override earlier ones).
pub open spec fn config_locations_spec(has_home: bool, has_current_dir: bool) -> Seq<
    ConfigLocation,
> {
    (if has_home {
        seq![
            ConfigLocation::HomeConfigYaml,
            ConfigLocation::HomeConfigJson,
            ConfigLocation::HomeYaml,
            ConfigLocation::HomeJson,
        ]
    } else {
        Seq::<ConfigLocation>::empty()
    }) + (if has_current_dir {
        seq![ConfigLocation::ProjectYaml, ConfigLocation::ProjectJson]
    } else {
        Seq::<ConfigLocation>::empty()
    })
}

/// The name of the file at a location.
pub open spec fn location_file_name(l: ConfigLocation) -> Seq<char> {
    match l {
        ConfigLocation::HomeConfigYaml => "shaka.yaml"@,
        ConfigLocation::HomeConfigJson => "shaka.json"@,
        ConfigLocation::HomeYaml | ConfigLocation::ProjectYaml => ".shaka.yaml"@,
        ConfigLocation::HomeJson | ConfigLocation::ProjectJson => ".shaka.json"@,
    }
}

/// The places to look for configuration files, given whether the home
/// directory and the current directory are known.
pub fn config_locations(has_home: bool, has_current_dir: bool) -> (r: Vec<ConfigLocation>)
    ensures
        r@ == config_locations_spec(has_home, has_current_dir),
{
    let mut r: Vec<ConfigLocation> = Vec::new();
    if has_home {
        r.push(ConfigLocation::HomeConfigYaml);
        r.push(ConfigLocation::HomeConfigJson);
        r.push(ConfigLocation::HomeYaml);
        r.push(ConfigLocation::HomeJson);
    }
    if has_current_dir {
        r.push(ConfigLocation::ProjectYaml);
        r.push(ConfigLocation::ProjectJson);
    }
    assert(r@ =~= config_locations_spec(has_home, has_current_dir));
    r
}

impl ConfigLocation {
    /// The format of the file at this location.
    pub open spec fn format_spec(self) -> ConfigFormat {
        if self is HomeConfigYaml || self is HomeYaml || self is ProjectYaml {
            ConfigFormat::Yaml
        } else {
            ConfigFormat::Jsonc
        }
    }

    /// Whether the file stands under the home directory (else under the
    /// current directory).
    pub fn under_home(&self) -> (r: bool)
        ensures
            r == !(*self is ProjectYaml || *self is ProjectJson),
    {
        match self {
            ConfigLocation::ProjectYaml | ConfigLocation::ProjectJson => false,
            _ => true,
        }
    }

    /// The directory between the base and the file, if any: `.config`.
    pub fn subdirectory(&self) -> (r: Option<&'static str>)
        ensures
            r is Some == (*self is HomeConfigYaml || *self is HomeConfigJson),
            r matches Some(d) ==> d@ == ".config"@,
    {
        match self {
            ConfigLocation::HomeConfigYaml | ConfigLocation::HomeConfigJson => Some(".config"),
            _ => None,
        }
    }

    /// The format of the file: YAML for a `.yaml` file, else JSONC.
    pub fn format(&self) -> (r: ConfigFormat)
        ensures
            r == self.format_spec(),
    {
        match self {
            ConfigLocation::HomeConfigYaml | ConfigLocation::HomeYaml | ConfigLocation::ProjectYaml => {
                ConfigFormat::Yaml
            },
            _ => ConfigFormat::Jsonc,
        }
    }

    /// The name of the file.
    pub fn file_name(&self) -> (r: &'static str)
        ensures
            r@ == location_file_name(*self),
    {
        match self {
            ConfigLocation::HomeConfigYaml => "shaka.yaml",
            ConfigLocation::HomeConfigJson => "shaka.json",
            ConfigLocation::HomeYaml | ConfigLocation::ProjectYaml => ".shaka.yaml",
            ConfigLocation::HomeJson | ConfigLocation::ProjectJson => ".shaka.json",
        }
    }
}

/// Whether `s` ends with `p`.
pub open spec fn ends_with(s: Seq<char>, p: Seq<char>) -> bool {
    p.len() <= s.len() && s.skip(s.len() - p.len()) == p
}

/// A file is read as YAML exactly when its name has the extension `yaml`.
pub proof fn lemma_format_by_extension(l: ConfigLocation)
    ensures
        (l.format_spec() == ConfigFormat::Yaml) == ends_with(location_file_name(l), ".yaml"@),
{
    reveal_strlit(".yaml");
    reveal_strlit("shaka.yaml");
    reveal_strlit("shaka.json");
    reveal_strlit(".shaka.yaml");
    reveal_strlit(".shaka.json");
    let name = location_file_name(l);
    let y = ".yaml"@;
    if l.format_spec() == ConfigFormat::Yaml {
        assert(name.skip(name.len() - y.len()) =~= y);
    } else {
        assert(name.skip(name.len() - y.len())[1] != y[1]);
    }
}

/// The JSONC document, or the error for an input that holds none.
pub fn jsonc_document<T>(parsed: Option<T>) -> (r: Result<T, String>)
    ensures
        parsed matches Some(v) ==> r == Ok::<T, String>(v),
        parsed is None ==> (r matches Err(e) && e@ == "empty JSON input"@),
{
    match parsed {
        Some(v) => Ok(v),
        None => Err("empty JSON input".to_owned()),
    }
}

/// The order of names: lexicographic by character code. It is the order of
/// `String`, whose UTF-8 bytes compare as their characters' codes do.
pub open spec fn chars_lt(a: Seq<char>, b: Seq<char>) -> bool
    decreases a.len(),
{
    if a.len() == 0 {
        b.len() > 0
    } else if b.len() == 0 {
        false
    } else if a[0] != b[0] {
        a[0] < b[0]
    } else {
        chars_lt(a.drop_first(), b.drop_first())
    }
}

/// Whether the keys of `e` strictly ascend.
pub open spec fn keys_strictly_ascending(e: Seq<Entry>) -> bool {
    forall|i: int, j: int| 0 <= i < j < e.len() ==> chars_lt(e[i].0, e[j].0)
}

/// Whether `s` lists the entries of the map `m`, each once, in ascending
/// order of the key.
pub open spec fn lists_in_key_order(s: Seq<(String, String)>, m: Map<String, String>) -> bool {
    &&& forall|i: int|
        #![trigger s[i]]
        0 <= i < s.len() ==> m.contains_key(s[i].0) && m[s[i].0] == s[i].1
    &&& forall|k: String| #[trigger]
        m.contains_key(k) ==> exists|i: int| 0 <= i < s.len() && s[i].0 == k
    &&& keys_strictly_ascending(pairs_view(s))
}

/// The entries of a map in ascending order of the key.
pub open spec fn key_ordered_entries(m: Map<String, String>) -> Seq<(String, String)> {
    choose|s: Seq<(String, String)>| lists_in_key_order(s, m)
}

/// The (name, command) pairs of a configuration, by view: a map's in
/// ascending order of the name, a list's in its order.
pub open spec fn form_entries(f: ConfigForm) -> Seq<Entry> {
    match f {
        ConfigForm::Mapping(m) => pairs_view(key_ordered_entries(m@)),
        ConfigForm::Pairs(p) => pairs_view(p@),
    }
}

/// `BTreeMap::into_iter`, collected: the map's entries, each once, sorted
/// by key (the order of `String`).
#[verifier::external_body]
fn map_into_sorted_pairs(m: BTreeMap<String, String>) -> (r: Vec<(String, String)>)
    ensures
        lists_in_key_order(r@, m@),
{
    m.into_iter().collect()
}

proof fn lemma_chars_lt_irreflexive(a: Seq<char>)
    ensures
        !chars_lt(a, a),
    decreases a.len(),
{
    if a.len() > 0 {
        lemma_chars_lt_irreflexive(a.drop_first());
    }
}

proof fn lemma_chars_lt_asymmetric(a: Seq<char>, b: Seq<char>)
    ensures
        !(chars_lt(a, b) && chars_lt(b, a)),
    decreases a.len(),
{
    if a.len() > 0 && b.len() > 0 && a[0] == b[0] {
        lemma_chars_lt_asymmetric(a.drop_first(), b.drop_first());
    }
}

/// A map has one listing of its entries in ascending key order.
proof fn lemma_key_order_listing_unique(
    s1: Seq<(String, String)>,
    s2: Seq<(String, String)>,
    m: Map<String, String>,
)
    requires
        lists_in_key_order(s1, m),
        lists_in_key_order(s2, m),
    ensures
        s1 == s2,
    decreases s1.len(),
{
    if s1.len() == 0 {
        if s2.len() > 0 {
            assert(m.contains_key(s2[0].0));
        }
        assert(s1 =~= s2);
    } else {
        let k1 = s1[0].0;
        assert(m.contains_key(k1));
        let j = choose|j: int| 0 <= j < s2.len() && s2[j].0 == k1;
        let k2 = s2[0].0;
        assert(m.contains_key(k2));
        let i = choose|i: int| 0 <= i < s1.len() && s1[i].0 == k2;
        lemma_chars_lt_irreflexive(k1@);
        lemma_chars_lt_irreflexive(k2@);
        lemma_chars_lt_asymmetric(k1@, k2@);
        if j > 0 {
            assert(chars_lt(pairs_view(s2)[0].0, pairs_view(s2)[j].0));
        }
        if i > 0 {
            assert(chars_lt(pairs_view(s1)[0].0, pairs_view(s1)[i].0));
        }
        assert(k1 == k2);
        assert(s1[0] == s2[0]);
        let m2 = m.remove(k1);
        let t1 = s1.drop_first();
        let t2 = s2.drop_first();
        assert forall|t: Seq<(String, String)>, s: Seq<(String, String)>|
            s.len() > 0 && t == s.drop_first() && lists_in_key_order(s, m) && s[0].0 == k1
            implies lists_in_key_order(t, m2) by {
            assert forall|a: int| #![trigger t[a]] 0 <= a < t.len() implies m2.contains_key(t[a].0)
                && m2[t[a].0] == t[a].1 by {
                assert(t[a] == s[a + 1]);
                assert(chars_lt(pairs_view(s)[0].0, pairs_view(s)[a + 1].0));
                lemma_chars_lt_irreflexive(k1@);
            }
            assert forall|k: String| #[trigger] m2.contains_key(k) implies exists|a: int|
                0 <= a < t.len() && t[a].0 == k by {
                assert(m.contains_key(k));
                let b = choose|b: int| 0 <= b < s.len() && s[b].0 == k;
                assert(b != 0);
                assert(t[b - 1].0 == k);
            }
            assert forall|a: int, b: int| 0 <= a < b < pairs_view(t).len() implies chars_lt(
                pairs_view(t)[a].0,
                pairs_view(t)[b].0,
            ) by {
                assert(pairs_view(t)[a] == pairs_view(s)[a + 1]);
                assert(pairs_view(t)[b] == pairs_view(s)[b + 1]);
            }
        }
        lemma_key_order_listing_unique(t1, t2, m2);
        assert(s1.len() == s2.len());
        assert forall|a: int| 0 <= a < s1.len() implies s1[a] == s2[a] by {
            if a > 0 {
                assert(s1[a] == t1[a - 1]);
                assert(s2[a] == t2[a - 1]);
            }
        }
        assert(s1 =~= s2);
    }
}

/// The pairs of a configuration: a map's in ascending order of the name,
/// each name once; a list's in its order.
pub fn normalize(parsed: ConfigForm) -> (r: Vec<(String, String)>)
    ensures
        pairs_view(r@) == form_entries(parsed),
        parsed matches ConfigForm::Mapping(m) ==> lists_in_key_order(r@, m@)
            && keys_strictly_ascending(pairs_view(r@)),
{
    match parsed {
        ConfigForm::Mapping(map) => {
            let ghost m = map@;
            let r = map_into_sorted_pairs(map);
            proof {
                lemma_key_order_listing_unique(r@, key_ordered_entries(m), m);
            }
            r
        },
        ConfigForm::Pairs(pairs) => pairs,
    }
}

/// The entries `m` after the pairs `pairs` are merged in one by one: each
/// pair removes the entry with its name, if any, and is added last.
pub open spec fn merge_entries(m: Seq<Entry>, pairs: Seq<Entry>) -> Seq<Entry>
    decreases pairs.len(),
{
    if pairs.len() == 0 {
        m
    } else {
        remove_key(merge_entries(m, pairs.drop_last()), pairs.last().0).push(pairs.last())
    }
}

/// The keys of a list of entries.
pub open spec fn keys_of(e: Seq<Entry>) -> Seq<Seq<char>> {
    e.map_values(|p: Entry| p.0)
}

/// The entries of `m` whose key is not in `ks`, in order.
pub open spec fn remove_keys(m: Seq<Entry>, ks: Seq<Seq<char>>) -> Seq<Entry>
    decreases m.len(),
{
    if m.len() == 0 {
        m
    } else if ks.contains(m.last().0) {
        remove_keys(m.drop_last(), ks)
    } else {
        remove_keys(m.drop_last(), ks).push(m.last())
    }
}

/// The pairs of `ps` that no later pair of `ps` has the key of, in order.
pub open spec fn last_occurrences(ps: Seq<Entry>) -> Seq<Entry>
    decreases ps.len(),
{
    if ps.len() == 0 {
        ps
    } else if keys_of(ps.drop_first()).contains(ps[0].0) {
        last_occurrences(ps.drop_first())
    } else {
        seq![ps[0]] + last_occurrences(ps.drop_first())
    }
}

/// The value of the last entry of `e` with key `k`, if any.
pub open spec fn value_of(e: Seq<Entry>, k: Seq<char>) -> Option<Seq<char>>
    decreases e.len(),
{
    if e.len() == 0 {
        None
    } else if e.last().0 == k {
        Some(e.last().1)
    } else {
        value_of(e.drop_last(), k)
    }
}

proof fn lemma_remove_key_absent(m: Seq<Entry>, k: Seq<char>)
    ensures
        !has_key(m, k) ==> remove_key(m, k) == m,
        !has_key(remove_key(m, k), k),
        forall|i: int|
            0 <= i < remove_key(m, k).len() ==> has_key(m, #[trigger] remove_key(m, k)[i].0),
        keys_distinct(m) ==> keys_distinct(remove_key(m, k)),
        forall|k2: Seq<char>| k2 != k ==> value_of(remove_key(m, k), k2) == value_of(m, k2),
    decreases m.len(),
{
    if m.len() > 0 {
        let d = m.drop_last();
        let x = m.last();
        lemma_remove_key_absent(d, k);
        let rd = remove_key(d, k);
        let r = remove_key(m, k);
        if !has_key(m, k) {
            assert(!has_key(d, k)) by {
                if has_key(d, k) {
                    let i = choose|i: int| 0 <= i < d.len() && d[i].0 == k;
                    assert(m[i].0 == k);
                }
            }
            assert(m =~= d.push(x));
        }
        assert forall|i: int| 0 <= i < r.len() implies has_key(m, #[trigger] r[i].0) by {
            if x.0 != k && i == r.len() - 1 {
                assert(m[m.len() - 1].0 == r[i].0);
            } else {
                assert(rd[i] == r[i]);
                assert(has_key(d, rd[i].0));
                let j = choose|j: int| 0 <= j < d.len() && d[j].0 == rd[i].0;
                assert(m[j].0 == r[i].0);
            }
        }
        if x.0 != k {
            assert(!has_key(r, k)) by {
                if has_key(r, k) {
                    let i = choose|i: int| 0 <= i < r.len() && r[i].0 == k;
                    assert(rd[i].0 == k);
                }
            }
            if keys_distinct(m) {
                assert(keys_distinct(d));
                assert forall|i: int| 0 <= i < rd.len() implies rd[i].0 != x.0 by {
                    assert(has_key(d, rd[i].0));
                    let j = choose|j: int| 0 <= j < d.len() && d[j].0 == rd[i].0;
                    assert(m[j].0 == d[j].0);
                }
            }
            assert(r.drop_last() =~= rd);
            assert forall|k2: Seq<char>| k2 != k implies value_of(r, k2) == value_of(m, k2) by {
                assert(r.last() == x);
                assert(value_of(rd, k2) == value_of(d, k2));
            }
        } else {
            if keys_distinct(m) {
                assert(keys_distinct(d));
            }
            assert forall|k2: Seq<char>| k2 != k implies value_of(r, k2) == value_of(m, k2) by {
                assert(value_of(rd, k2) == value_of(d, k2));
            }
        }
    }
}

/// Merging pairs into a map keeps each key at most once.
pub proof fn lemma_merge_keeps_keys_distinct(m: Seq<Entry>, pairs: Seq<Entry>)
    requires
        keys_distinct(m),
    ensures
        keys_distinct(merge_entries(m, pairs)),
    decreases pairs.len(),
{
    if pairs.len() > 0 {
        lemma_merge_keeps_keys_distinct(m, pairs.drop_last());
        let prev = merge_entries(m, pairs.drop_last());
        lemma_remove_key_absent(prev, pairs.last().0);
    }
}

/// Precedence: after merging `pairs` into `m`, the value of a key is that
/// of the last pair with that key, and a key that no pair has keeps its
/// value from `m`.
pub proof fn lemma_merge_value(m: Seq<Entry>, pairs: Seq<Entry>, k: Seq<char>)
    ensures
        value_of(merge_entries(m, pairs), k) == if has_key(pairs, k) {
            value_of(pairs, k)
        } else {
            value_of(m, k)
        },
    decreases pairs.len(),
{
    if pairs.len() > 0 {
        let d = pairs.drop_last();
        let p = pairs.last();
        lemma_merge_value(m, d, k);
        let prev = merge_entries(m, d);
        lemma_remove_key_absent(prev, p.0);
        let r = remove_key(prev, p.0).push(p);
        assert(r.drop_last() =~= remove_key(prev, p.0));
        if p.0 != k {
            assert(has_key(pairs, k) == has_key(d, k)) by {
                if has_key(pairs, k) {
                    let i = choose|i: int| 0 <= i < pairs.len() && pairs[i].0 == k;
                    assert(d[i].0 == k);
                }
                if has_key(d, k) {
                    let i = choose|i: int| 0 <= i < d.len() && d[i].0 == k;
                    assert(pairs[i].0 == k);
                }
            }
        } else {
            assert(pairs[pairs.len() - 1].0 == k);
        }
    }
}

/// Merging `a` and then `b` is merging `a` followed by `b`: loading files
/// one after the other is loading their pairs in one list.
pub proof fn lemma_merge_concat(m: Seq<Entry>, a: Seq<Entry>, b: Seq<Entry>)
    ensures
        merge_entries(merge_entries(m, a), b) == merge_entries(m, a + b),
    decreases b.len(),
{
    if b.len() == 0 {
        assert(a + b =~= a);
    } else {
        lemma_merge_concat(m, a, b.drop_last());
        assert((a + b).drop_last() =~= a + b.drop_last());
        assert((a + b).last() == b.last());
    }
}

proof fn lemma_remove_key_concat(a: Seq<Entry>, b: Seq<Entry>, k: Seq<char>)
    ensures
        remove_key(a + b, k) == remove_key(a, k) + remove_key(b, k),
    decreases b.len(),
{
    if b.len() == 0 {
        assert(a + b =~= a);
        assert(remove_key(a, k) + remove_key(b, k) =~= remove_key(a, k));
    } else {
        lemma_remove_key_concat(a, b.drop_last(), k);
        assert((a + b).drop_last() =~= a + b.drop_last());
        assert((a + b).last() == b.last());
        if b.last().0 != k {
            assert(remove_key(a, k) + remove_key(b.drop_last(), k).push(b.last()) =~= (remove_key(
                a,
                k,
            ) + remove_key(b.drop_last(), k)).push(b.last()));
        }
    }
}

proof fn lemma_remove_key_keys(m: Seq<Entry>, ks: Seq<Seq<char>>, k: Seq<char>)
    ensures
        remove_key(remove_keys(m, ks), k) == remove_keys(m, ks.push(k)),
    decreases m.len(),
{
    if m.len() > 0 {
        lemma_remove_key_keys(m.drop_last(), ks, k);
        let x = m.last().0;
        assert(ks.push(k).contains(x) == (ks.contains(x) || x == k)) by {
            if ks.push(k).contains(x) {
                let i = choose|i: int| 0 <= i < ks.push(k).len() && ks.push(k)[i] == x;
                if i < ks.len() {
                    assert(ks[i] == x);
                }
            }
            if ks.contains(x) {
                let i = choose|i: int| 0 <= i < ks.len() && ks[i] == x;
                assert(ks.push(k)[i] == x);
            }
            if x == k {
                assert(ks.push(k)[ks.len() as int] == x);
            }
        }
        if !ks.contains(x) {
            let s = remove_keys(m.drop_last(), ks).push(m.last());
            assert(s.drop_last() =~= remove_keys(m.drop_last(), ks));
        }
    }
}

proof fn lemma_last_occurrences_push(ps: Seq<Entry>, p: Entry)
    ensures
        last_occurrences(ps.push(p)) == remove_key(last_occurrences(ps), p.0).push(p),
    decreases ps.len(),
{
    if ps.len() == 0 {
        assert(ps.push(p).drop_first() =~= ps);
        assert(keys_of(ps) =~= Seq::<Seq<char>>::empty());
        assert(seq![p] + ps =~= ps.push(p));
    } else {
        let q = ps[0];
        let r = ps.drop_first();
        assert(ps.push(p).drop_first() =~= r.push(p));
        lemma_last_occurrences_push(r, p);
        assert(keys_of(r.push(p)) =~= keys_of(r).push(p.0));
        let c = keys_of(r.push(p)).contains(q.0);
        assert(c == (keys_of(r).contains(q.0) || q.0 == p.0)) by {
            if c {
                let i = choose|i: int| 0 <= i < keys_of(r.push(p)).len() && keys_of(r.push(p))[i] == q.0;
                if i < r.len() {
                    assert(keys_of(r)[i] == q.0);
                }
            }
            if keys_of(r).contains(q.0) {
                let i = choose|i: int| 0 <= i < keys_of(r).len() && keys_of(r)[i] == q.0;
                assert(keys_of(r.push(p))[i] == q.0);
            }
            if q.0 == p.0 {
                assert(keys_of(r.push(p))[r.len() as int] == q.0);
            }
        }
        let lr = last_occurrences(r);
        if keys_of(r).contains(q.0) {
        } else {
            lemma_remove_key_concat(seq![q], lr, p.0);
            let single = seq![q];
            assert(single.drop_last() =~= Seq::<Entry>::empty());
            assert(remove_key(single.drop_last(), p.0) =~= Seq::<Entry>::empty());
            assert(single.last() == q);
            if q.0 == p.0 {
                assert(remove_key(single, p.0) =~= Seq::<Entry>::empty());
                assert(Seq::<Entry>::empty() + remove_key(lr, p.0) =~= remove_key(lr, p.0));
            } else {
                assert(remove_key(single, p.0) =~= single);
                assert(single + remove_key(lr, p.0).push(p) =~= (single + remove_key(lr, p.0)).push(
                    p,
                ));
            }
        }
    }
}

/// The order of a merge: the entries of `m` that no pair overrides, in
/// their order, followed by the last pair of each key of `pairs`, in the
/// order of those pairs. A key that is merged again moves to its latest
/// position.
pub proof fn lemma_merge_order(m: Seq<Entry>, pairs: Seq<Entry>)
    ensures
        merge_entries(m, pairs) == remove_keys(m, keys_of(pairs)) + last_occurrences(pairs),
    decreases pairs.len(),
{
    if pairs.len() == 0 {
        assert(keys_of(pairs) =~= Seq::<Seq<char>>::empty());
        lemma_remove_keys_none(m, keys_of(pairs));
        assert(m + Seq::<Entry>::empty() =~= m);
    } else {
        let d = pairs.drop_last();
        let p = pairs.last();
        lemma_merge_order(m, d);
        assert(keys_of(pairs) =~= keys_of(d).push(p.0));
        lemma_remove_key_concat(remove_keys(m, keys_of(d)), last_occurrences(d), p.0);
        lemma_remove_key_keys(m, keys_of(d), p.0);
        assert(pairs =~= d.push(p));
        lemma_last_occurrences_push(d, p);
        let a = remove_keys(m, keys_of(pairs));
        let b = remove_key(last_occurrences(d), p.0);
        assert((a + b).push(p) =~= a + b.push(p));
    }
}

proof fn lemma_remove_keys_none(m: Seq<Entry>, ks: Seq<Seq<char>>)
    requires
        ks.len() == 0,
    ensures
        remove_keys(m, ks) == m,
    decreases m.len(),
{
    if m.len() > 0 {
        lemma_remove_keys_none(m.drop_last(), ks);
        assert(m.drop_last().push(m.last()) =~= m);
    }
}

proof fn lemma_remove_keys_same_keys(m: Seq<Entry>, ks1: Seq<Seq<char>>, ks2: Seq<Seq<char>>)
    requires
        forall|k: Seq<char>| ks1.contains(k) <==> ks2.contains(k),
    ensures
        remove_keys(m, ks1) == remove_keys(m, ks2),
    decreases m.len(),
{
    if m.len() > 0 {
        lemma_remove_keys_same_keys(m.drop_last(), ks1, ks2);
        assert(ks1.contains(m.last().0) == ks2.contains(m.last().0));
    }
}

proof fn lemma_last_occurrences_covered(a: Seq<Entry>, b: Seq<Entry>)
    requires
        forall|i: int| 0 <= i < a.len() ==> keys_of(b).contains(#[trigger] a[i].0),
    ensures
        last_occurrences(a + b) == last_occurrences(b),
    decreases a.len(),
{
    if a.len() == 0 {
        assert(a + b =~= b);
    } else {
        let x = a[0];
        assert((a + b)[0] == x);
        assert((a + b).drop_first() =~= a.drop_first() + b);
        assert(keys_of(b).contains(x.0));
        let j = choose|j: int| 0 <= j < keys_of(b).len() && keys_of(b)[j] == x.0;
        assert(keys_of(a.drop_first() + b)[a.len() - 1 + j] == x.0);
        assert forall|i: int| 0 <= i < a.drop_first().len() implies keys_of(b).contains(
            #[trigger] a.drop_first()[i].0,
        ) by {
            assert(a.drop_first()[i] == a[i + 1]);
        }
        lemma_last_occurrences_covered(a.drop_first(), b);
    }
}

/// Merging the same pairs twice is merging them once.
pub proof fn lemma_merge_idempotent(m: Seq<Entry>, pairs: Seq<Entry>)
    ensures
        merge_entries(merge_entries(m, pairs), pairs) == merge_entries(m, pairs),
{
    lemma_merge_concat(m, pairs, pairs);
    lemma_merge_order(m, pairs + pairs);
    lemma_merge_order(m, pairs);
    let k2 = keys_of(pairs + pairs);
    let k1 = keys_of(pairs);
    assert(k2 =~= k1 + k1);
    assert forall|k: Seq<char>| k2.contains(k) <==> k1.contains(k) by {
        if k2.contains(k) {
            let i = choose|i: int| 0 <= i < k2.len() && k2[i] == k;
            if i < k1.len() {
                assert(k1[i] == k);
            } else {
                assert(k1[i - k1.len()] == k);
            }
        }
        if k1.contains(k) {
            let i = choose|i: int| 0 <= i < k1.len() && k1[i] == k;
            assert(k2[i] == k);
        }
    }
    lemma_remove_keys_same_keys(m, k2, k1);
    assert forall|i: int| 0 <= i < pairs.len() implies k1.contains(#[trigger] pairs[i].0) by {
        assert(k1[i] == pairs[i].0);
    }
    lemma_last_occurrences_covered(pairs, pairs);
}

/// Merges `pairs` into `merged` in order: a pair whose name is already
/// there replaces that entry and moves it last.
pub fn merge_pairs(merged: &mut IndexMap<String, String>, pairs: Vec<(String, String)>)
    ensures
        map_entries(*final(merged)) == merge_entries(map_entries(*old(merged)), pairs_view(pairs@)),
{
    let ghost start = map_entries(*merged);
    let ghost ps = pairs_view(pairs@);
    for pair in it: pairs
        invariant
            it.seq() == pairs@,
            ps == pairs_view(pairs@),
            map_entries(*merged) == merge_entries(start, ps.take(it.index())),
    {
        let ghost before = map_entries(*merged);
        let ghost idx = it.index();
        let (key, value) = pair;
        if map_contains_key(merged, &key) {
            map_shift_remove(merged, &key);
        }
        proof {
            lemma_remove_key_absent(before, key@);
        }
        map_insert(merged, key, value);
        proof {
            assert(ps.take(idx + 1).drop_last() =~= ps.take(idx));
            assert(ps.take(idx + 1).last() == ps[idx]);
            assert(map_entries(*merged) == merge_entries(start, ps.take(idx + 1)));
        }
    }
    assert(ps.take(ps.len() as int) =~= ps);
}

/// The message for a file that failed to load, or `None` for a loaded one.
pub open spec fn failure_message(f: ConfigFile) -> Option<Seq<char>> {
    match f.source {
        ConfigSource::ReadFailed(e) => Some("failed reading "@ + f.path@ + ": "@ + e@),
        ConfigSource::YamlFailed(e) => Some("failed parsing YAML "@ + f.path@ + ": "@ + e@),
        ConfigSource::JsoncFailed(e) => Some("failed parsing JSONC "@ + f.path@ + ": "@ + e@),
        ConfigSource::Loaded(_) => None,
    }
}

/// The entries a loaded file contributes (none for a failed one).
pub open spec fn file_entries(f: ConfigFile) -> Seq<Entry> {
    match f.source {
        ConfigSource::Loaded(form) => form_entries(form),
        _ => Seq::<Entry>::empty(),
    }
}

/// Loading files in order: the message of the first file that failed, or
/// else the entries of all files merged one file after the other.
pub open spec fn load_files(files: Seq<ConfigFile>) -> Result<Seq<Entry>, Seq<char>>
    decreases files.len(),
{
    if files.len() == 0 {
        Ok(Seq::<Entry>::empty())
    } else {
        match load_files(files.drop_last()) {
            Err(e) => Err(e),
            Ok(m) => match failure_message(files.last()) {
                Some(e) => Err(e),
                None => Ok(merge_entries(m, file_entries(files.last()))),
            },
        }
    }
}

fn failure_text(prefix: &str, path: &str, reason: &str) -> (r: String)
    ensures
        r@ == prefix@ + path@ + ": "@ + reason@,
{
    let mut r = String::new();
    r.append(prefix);
    r.append(path);
    r.append(": ");
    r.append(reason);
    assert(r@ =~= prefix@ + path@ + ": "@ + reason@);
    r
}

/// Merges the configuration files in order, later files overriding earlier
/// ones; the first file that failed to load makes the whole load fail.
pub fn load_from_files(files: Vec<ConfigFile>) -> (r: Result<IndexMap<String, String>, String>)
    ensures
        match r {
            Ok(m) => load_files(files@) == Ok::<Seq<Entry>, Seq<char>>(map_entries(m)),
            Err(e) => load_files(files@) == Err::<Seq<Entry>, Seq<char>>(e@),
        },
{
    let ghost fs = files@;
    let mut merged = map_new();
    for file in it: files
        invariant
            it.seq() == fs,
            load_files(fs.take(it.index())) == Ok::<Seq<Entry>, Seq<char>>(map_entries(merged)),
    {
        let ghost idx = it.index();
        let ghost f = file;
        proof {
            assert(fs.take(idx + 1).drop_last() =~= fs.take(idx));
            assert(fs.take(idx + 1).last() == f);
        }
        let ConfigFile { path, source } = file;
        match source {
            ConfigSource::ReadFailed(e) => {
                let msg = failure_text("failed reading ", path.as_str(), e.as_str());
                proof {
                    lemma_load_error_stays(fs, idx + 1);
                }
                return Err(msg);
            },
            ConfigSource::YamlFailed(e) => {
                let msg = failure_text("failed parsing YAML ", path.as_str(), e.as_str());
                proof {
                    lemma_load_error_stays(fs, idx + 1);
                }
                return Err(msg);
            },
            ConfigSource::JsoncFailed(e) => {
                let msg = failure_text("failed parsing JSONC ", path.as_str(), e.as_str());
                proof {
                    lemma_load_error_stays(fs, idx + 1);
                }
                return Err(msg);
            },
            ConfigSource::Loaded(form) => {
                merge_pairs(&mut merged, normalize(form));
            },
        }
    }
    proof {
        assert(fs.take(fs.len() as int) =~= fs);
    }
    Ok(merged)
}

/// When every file loaded, so does the whole load.
pub proof fn lemma_all_loaded_load_ok(files: Seq<ConfigFile>)
    requires
        forall|i: int| 0 <= i < files.len() ==> (#[trigger] files[i]).source is Loaded,
    ensures
        load_files(files) is Ok,
    decreases files.len(),
{
    if files.len() > 0 {
        let d = files.drop_last();
        assert forall|i: int| 0 <= i < d.len() implies (#[trigger] d[i]).source is Loaded by {
            assert(d[i] == files[i]);
        }
        lemma_all_loaded_load_ok(d);
        assert(files.last() == files[files.len() - 1]);
    }
}

/// The first file that failed to read or parse fails the load, whatever the
/// files after it, with its message: `failed reading`, `failed parsing
/// YAML` or `failed parsing JSONC`, the path, `: ` and the reason.
pub proof fn lemma_first_failure_fails_load(files: Seq<ConfigFile>, f: int)
    requires
        0 <= f < files.len(),
        !(files[f].source is Loaded),
        forall|i: int| 0 <= i < f ==> (#[trigger] files[i]).source is Loaded,
    ensures
        load_files(files) == Err::<Seq<Entry>, Seq<char>>(
            match files[f].source {
                ConfigSource::ReadFailed(e) => "failed reading "@ + files[f].path@ + ": "@ + e@,
                ConfigSource::YamlFailed(e) => "failed parsing YAML "@ + files[f].path@ + ": "@
                    + e@,
                ConfigSource::JsoncFailed(e) => "failed parsing JSONC "@ + files[f].path@ + ": "@
                    + e@,
                ConfigSource::Loaded(_) => Seq::<char>::empty(),
            },
        ),
    decreases files.len(),
{
    let d = files.drop_last();
    if f == files.len() - 1 {
        assert forall|i: int| 0 <= i < d.len() implies (#[trigger] d[i]).source is Loaded by {
            assert(d[i] == files[i]);
        }
        lemma_all_loaded_load_ok(d);
        assert(files.last() == files[f]);
    } else {
        assert(d[f] == files[f]);
        assert forall|i: int| 0 <= i < f implies (#[trigger] d[i]).source is Loaded by {
            assert(d[i] == files[i]);
        }
        lemma_first_failure_fails_load(d, f);
    }
}

/// Once a prefix of the files fails to load, so do all the files.
proof fn lemma_load_error_stays(fs: Seq<ConfigFile>, n: int)
    requires
        0 <= n <= fs.len(),
        load_files(fs.take(n)) is Err,
    ensures
        load_files(fs) == load_files(fs.take(n)),
    decreases fs.len() - n,
{
    if n < fs.len() {
        assert(fs.take(n + 1).drop_last() =~= fs.take(n));
        lemma_load_error_stays(fs, n + 1);
    } else {
        assert(fs.take(n) =~= fs);
    }
}

/// The pairs of all loaded files, one file after the other.
pub open spec fn all_entries(files: Seq<ConfigFile>) -> Seq<Entry>
    decreases files.len(),
{
    if files.len() == 0 {
        Seq::<Entry>::empty()
    } else {
        all_entries(files.drop_last()) + file_entries(files.last())
    }
}

/// A successful load merges the pairs of all files, in file order, into an
/// empty configuration.
pub proof fn lemma_load_merges_all(files: Seq<ConfigFile>)
    ensures
        load_files(files) is Ok ==> load_files(files) == Ok::<Seq<Entry>, Seq<char>>(
            merge_entries(Seq::<Entry>::empty(), all_entries(files)),
        ),
    decreases files.len(),
{
    if files.len() > 0 {
        lemma_load_merges_all(files.drop_last());
        lemma_merge_concat(
            Seq::<Entry>::empty(),
            all_entries(files.drop_last()),
            file_entries(files.last()),
        );
    }
}

/// Later files override earlier ones: in a successful load, the command of
/// a name is the one of its last pair in the last file that has it, and a
/// name that no file has is absent.
pub proof fn lemma_load_precedence(files: Seq<ConfigFile>, name: Seq<char>)
    requires
        load_files(files) is Ok,
    ensures
        value_of(load_files(files)->Ok_0, name) == value_of(all_entries(files), name),
{
    lemma_load_merges_all(files);
    lemma_merge_value(Seq::<Entry>::empty(), all_entries(files), name);
    lemma_value_of_absent(all_entries(files), name);
}

proof fn lemma_value_of_absent(e: Seq<Entry>, k: Seq<char>)
    ensures
        !has_key(e, k) ==> value_of(e, k) is None,
    decreases e.len(),
{
    if e.len() > 0 {
        lemma_value_of_absent(e.drop_last(), k);
        if has_key(e.drop_last(), k) {
            let i = choose|i: int| 0 <= i < e.drop_last().len() && e.drop_last()[i].0 == k;
            assert(e[i].0 == k);
        }
        if e.last().0 == k {
            assert(e[e.len() - 1].0 == k);
        }
    }
}

/// A successful load holds each name at most once.
pub proof fn lemma_load_keys_distinct(files: Seq<ConfigFile>)
    requires
        load_files(files) is Ok,
    ensures
        keys_distinct(load_files(files)->Ok_0),
{
    lemma_load_merges_all(files);
    lemma_merge_keeps_keys_distinct(Seq::<Entry>::empty(), all_entries(files));
}

} // verus!
