//! The configuration store: a schema of known settings with defaults and
//! descriptions, and the overrides that were loaded or set.
//!
//! Persistence is not done here: the store is built from the pairs that a
//! storage backend loaded, and `set` hands back the write that the backend
//! is to make when autosave is on.
use vstd::prelude::*;
use crate::keyed::{keys_of, last_index_of, lemma_last_index_at, lemma_last_index_of, lemma_upsert, lemma_upsert_no_duplicates, lookup, upsert};
use crate::setting::{parse_setting, render_setting, Setting, SettingModel};
use crate::text::chars_of;

verus! {

/// The model of a [`SettingInfo`].
pub struct InfoModel {
    pub key: Seq<char>,
    pub default: SettingModel,
    pub description: Seq<char>,
}

/// A schema entry: a key, its default value and a description.
#[derive(Clone, Debug, PartialEq, Eq)]
pub struct SettingInfo {
    pub key: String,
    pub default: Setting,
    pub description: String,
}

impl View for SettingInfo {
    type V = InfoModel;

    open spec fn view(&self) -> InfoModel {
        InfoModel { key: self.key@, default: self.default@, description: self.description@ }
    }
}

/// A write that a storage backend is to make: `raw` is the text form of the
/// value set for `key`.
#[derive(Clone, Debug, PartialEq, Eq)]
pub struct Persist {
    pub key: String,
    pub raw: String,
}

/// The model of a [`ConfigStore`].
pub struct StoreModel {
    /// Schema entries by key, in registration order.
    pub schema: Seq<(Seq<char>, InfoModel)>,
    /// Overrides by key, in the order their keys were first seen.
    pub overrides: Seq<(Seq<char>, SettingModel)>,
    pub autosave: bool,
}

/// The value that a lookup of an unknown key without a fallback gives: empty
/// text.
pub open spec fn empty_setting() -> SettingModel {
    SettingModel::Text(Seq::empty())
}

/// `"*"` matches every key; any other pattern matches the keys that contain
/// it.
pub open spec fn key_matches(pattern: Seq<char>, key: Seq<char>) -> bool {
    pattern == seq!['*'] || exists|i: int|
        0 <= i && i + pattern.len() <= key.len() && #[trigger] key.subrange(i, i + pattern.len())
            == pattern
}

/// The keys of `keys` that match `pattern`, in order.
pub open spec fn matching(pattern: Seq<char>, keys: Seq<Seq<char>>) -> Seq<Seq<char>>
    decreases keys.len(),
{
    if keys.len() == 0 {
        keys
    } else {
        let r = matching(pattern, keys.drop_last());
        if key_matches(pattern, keys.last()) {
            r.push(keys.last())
        } else {
            r
        }
    }
}

/// The keys of `keys` that `known` lacks, in order.
pub open spec fn keys_outside(keys: Seq<Seq<char>>, known: Seq<Seq<char>>) -> Seq<Seq<char>>
    decreases keys.len(),
{
    if keys.len() == 0 {
        keys
    } else {
        let r = keys_outside(keys.drop_last(), known);
        if known.contains(keys.last()) {
            r
        } else {
            r.push(keys.last())
        }
    }
}

impl StoreModel {
    pub open spec fn schema_keys(self) -> Seq<Seq<char>> {
        keys_of(self.schema)
    }

    pub open spec fn override_keys(self) -> Seq<Seq<char>> {
        keys_of(self.overrides)
    }

    /// Keys are unique within the schema and within the overrides.
    pub open spec fn wf(self) -> bool {
        self.schema_keys().no_duplicates() && self.override_keys().no_duplicates()
    }

    pub open spec fn info(self, key: Seq<char>) -> Option<InfoModel> {
        lookup(self.schema, key)
    }

    pub open spec fn has(self, key: Seq<char>) -> bool {
        self.schema_keys().contains(key) || self.override_keys().contains(key)
    }

    /// The override if there is one, else the schema default, else the
    /// fallback, else empty text.
    pub open spec fn get(self, key: Seq<char>, fallback: Option<SettingModel>) -> SettingModel {
        match lookup(self.overrides, key) {
            Some(v) => v,
            None => match self.info(key) {
                Some(i) => i.default,
                None => match fallback {
                    Some(f) => f,
                    None => empty_setting(),
                },
            },
        }
    }

    pub open spec fn set(self, key: Seq<char>, value: SettingModel) -> StoreModel {
        StoreModel { overrides: upsert(self.overrides, key, value), ..self }
    }

    /// Override keys that the schema does not know, in the order first seen.
    pub open spec fn orphan_keys(self) -> Seq<Seq<char>> {
        keys_outside(self.override_keys(), self.schema_keys())
    }

    /// Every key: the schema's in registration order, then the orphans.
    pub open spec fn all_keys(self) -> Seq<Seq<char>> {
        self.schema_keys() + self.orphan_keys()
    }

    /// The keys that match `pattern`, in the order of `all_keys`.
    pub open spec fn find(self, pattern: Seq<char>) -> Seq<Seq<char>> {
        matching(pattern, self.schema_keys()) + matching(pattern, self.orphan_keys())
    }
}

/// Schema entries by key, first entry for a key kept.
pub open spec fn registered(infos: Seq<InfoModel>) -> Seq<(Seq<char>, InfoModel)>
    decreases infos.len(),
{
    if infos.len() == 0 {
        Seq::empty()
    } else {
        let r = registered(infos.drop_last());
        if keys_of(r).contains(infos.last().key) {
            r
        } else {
            r.push((infos.last().key, infos.last()))
        }
    }
}

/// `overrides` after each persisted pair, in order, is read and applied.
pub open spec fn loaded(
    overrides: Seq<(Seq<char>, SettingModel)>,
    persisted: Seq<(Seq<char>, Seq<char>)>,
) -> Seq<(Seq<char>, SettingModel)>
    decreases persisted.len(),
{
    if persisted.len() == 0 {
        overrides
    } else {
        upsert(
            loaded(overrides, persisted.drop_last()),
            persisted.last().0,
            parse_setting(persisted.last().1),
        )
    }
}

/// The store opened with a schema on what a backend holds.
pub open spec fn opened(
    schema: Seq<InfoModel>,
    persisted: Seq<(Seq<char>, Seq<char>)>,
    autosave: bool,
) -> StoreModel {
    StoreModel { schema: registered(schema), overrides: loaded(Seq::empty(), persisted), autosave }
}

/// The model of an optional value.
pub open spec fn option_view(o: Option<Setting>) -> Option<SettingModel> {
    match o {
        Some(s) => Some(s@),
        None => None,
    }
}

/// The model of an optional schema entry.
pub open spec fn option_info_view(o: Option<SettingInfo>) -> Option<InfoModel> {
    match o {
        Some(i) => Some(i@),
        None => None,
    }
}

/// `needle` occurs in `hay` starting at `i`.
fn occurs_at(hay: &Vec<char>, needle: &Vec<char>, i: usize) -> (r: bool)
    requires
        i + needle@.len() <= hay@.len(),
    ensures
        r == (hay@.subrange(i as int, i + needle@.len()) == needle@),
{
    let h = hay.len();
    let mut j: usize = 0;
    while j < needle.len()
        invariant
            h == hay@.len(),
            i + needle@.len() <= hay@.len(),
            j <= needle@.len(),
            forall|t: int| 0 <= t < j ==> hay@[i + t] == needle@[t],
        decreases needle@.len() - j,
    {
        if hay[i + j] != needle[j] {
            assert(hay@.subrange(i as int, i + needle@.len())[j as int] != needle@[j as int]);
            return false;
        }
        j += 1;
    }
    assert(hay@.subrange(i as int, i + needle@.len()) =~= needle@);
    true
}

/// Whether `key` matches `pattern` (see [`key_matches`]).
fn matches_pattern(pattern: &Vec<char>, key: &String) -> (r: bool)
    ensures
        r == key_matches(pattern@, key@),
{
    if pattern.len() == 1 && pattern[0] == '*' {
        assert(pattern@ =~= seq!['*']);
        return true;
    }
    assert(pattern@ != seq!['*']) by {
        if pattern@ == seq!['*'] {
            assert(pattern@[0] == '*');
        }
    }
    let hay = chars_of(key.as_str());
    if pattern.len() > hay.len() {
        return false;
    }
    let last = hay.len() - pattern.len();
    let mut i: usize = 0;
    loop
        invariant
            i <= last,
            last + pattern@.len() == hay@.len(),
            hay@ == key@,
            pattern@ != seq!['*'],
            forall|t: int|
                0 <= t < i ==> #[trigger] hay@.subrange(t, t + pattern@.len()) != pattern@,
        decreases last - i,
    {
        if occurs_at(&hay, pattern, i) {
            return true;
        }
        if i == last {
            return false;
        }
        i += 1;
    }
}

/// A typed, schema-aware configuration store.
pub struct ConfigStore {
    schema: Vec<SettingInfo>,
    overrides: Vec<(String, Setting)>,
    autosave: bool,
}

impl View for ConfigStore {
    type V = StoreModel;

    closed spec fn view(&self) -> StoreModel {
        StoreModel {
            schema: self.schema@.map_values(|i: SettingInfo| (i.key@, i@)),
            overrides: self.overrides@.map_values(|p: (String, Setting)| (p.0@, p.1@)),
            autosave: self.autosave,
        }
    }
}

impl Setting {
    /// A copy of the value.
    pub fn duplicate(&self) -> (r: Setting)
        ensures
            r@ == self@,
    {
        match self {
            Setting::Boolean(b) => Setting::Boolean(*b),
            Setting::Integer(i) => Setting::Integer(*i),
            Setting::Float(d) => Setting::Float(*d),
            Setting::String(s) => Setting::String(s.clone()),
        }
    }
}

impl SettingInfo {
    /// A copy of the entry.
    pub fn duplicate(&self) -> (r: SettingInfo)
        ensures
            r@ == self@,
    {
        SettingInfo {
            key: self.key.clone(),
            default: self.default.duplicate(),
            description: self.description.clone(),
        }
    }
}

impl ConfigStore {
    /// Opens a store on a schema and on the pairs that a backend loaded.
    /// Every persisted text is read with [`Setting::from_string`]; a key
    /// that the schema lacks is kept as an orphan override. Of two schema
    /// entries with one key the first counts.
    pub fn new(schema: Vec<SettingInfo>, persisted: &Vec<(String, String)>, autosave: bool) -> (r:
        ConfigStore)
        ensures
            r@ == opened(
                schema@.map_values(|i: SettingInfo| i@),
                persisted@.map_values(|p: (String, String)| (p.0@, p.1@)),
                autosave,
            ),
            r@.wf(),
    {
        let mut store = ConfigStore { schema: Vec::new(), overrides: Vec::new(), autosave };
        let ghost infos = schema@.map_values(|i: SettingInfo| i@);
        let ghost pairs = persisted@.map_values(|p: (String, String)| (p.0@, p.1@));
        assert(store@.schema =~= registered(infos.subrange(0, 0)));
        assert(store@.overrides =~= loaded(Seq::empty(), pairs.subrange(0, 0)));
        let mut i: usize = 0;
        while i < schema.len()
            invariant
                i <= schema@.len(),
                infos == schema@.map_values(|i: SettingInfo| i@),
                store@.wf(),
                store@.autosave == autosave,
                store@.schema == registered(infos.subrange(0, i as int)),
                store@.overrides == Seq::<(Seq<char>, SettingModel)>::empty(),
            decreases schema@.len() - i,
        {
            assert(infos.subrange(0, i + 1).drop_last() =~= infos.subrange(0, i as int));
            store.register(schema[i].duplicate());
            i += 1;
        }
        assert(infos.subrange(0, i as int) =~= infos);
        let mut j: usize = 0;
        while j < persisted.len()
            invariant
                j <= persisted@.len(),
                pairs == persisted@.map_values(|p: (String, String)| (p.0@, p.1@)),
                store@.wf(),
                store@.autosave == autosave,
                store@.schema == registered(infos),
                store@.overrides == loaded(Seq::empty(), pairs.subrange(0, j as int)),
            decreases persisted@.len() - j,
        {
            assert(pairs.subrange(0, j + 1).drop_last() =~= pairs.subrange(0, j as int));
            let value = Setting::from_string(persisted[j].1.as_str());
            store.put_override(persisted[j].0.clone(), value);
            j += 1;
        }
        assert(pairs.subrange(0, j as int) =~= pairs);
        store
    }

    /// Adds a schema entry unless its key is registered already.
    fn register(&mut self, info: SettingInfo)
        requires
            old(self)@.wf(),
        ensures
            final(self)@.wf(),
            final(self)@ == (StoreModel {
                schema: if old(self)@.schema_keys().contains(info.key@) {
                    old(self)@.schema
                } else {
                    old(self)@.schema.push((info.key@, info@))
                },
                ..old(self)@
            }),
    {
        proof {
            lemma_last_index_of(self@.schema, info.key@);
        }
        match self.schema_index(&info.key) {
            Some(_) => {},
            None => {
                let ghost before = self@;
                self.schema.push(info);
                assert(self@.schema =~= before.schema.push((info.key@, info@)));
                assert(self@.schema_keys() =~= before.schema_keys().push(info.key@));
                assert(self@.overrides =~= before.overrides);
            },
        }
    }

    /// Sets the override for `key`, replacing one that is there.
    fn put_override(&mut self, key: String, value: Setting)
        requires
            old(self)@.wf(),
        ensures
            final(self)@.wf(),
            final(self)@ == old(self)@.set(key@, value@),
    {
        let ghost before = self@;
        proof {
            lemma_last_index_of(before.overrides, key@);
            lemma_upsert_no_duplicates(before.overrides, key@, value@);
        }
        match self.override_index(&key) {
            Some(i) => {
                self.overrides.set(i, (key, value));
            },
            None => {
                self.overrides.push((key, value));
            },
        }
        assert(self@.overrides =~= upsert(before.overrides, key@, value@));
        assert(self@.schema =~= before.schema);
    }

    /// Whether the schema or the overrides hold `key`.
    pub fn has(&self, key: &str) -> (r: bool)
        ensures
            r == self@.has(key@),
    {
        let k = key.to_owned();
        proof {
            lemma_last_index_of(self@.schema, k@);
            lemma_last_index_of(self@.overrides, k@);
        }
        self.schema_index(&k).is_some() || self.override_index(&k).is_some()
    }

    /// The schema entry for `key`; `None` for a key the schema lacks.
    pub fn get_info(&self, key: &str) -> (r: Option<SettingInfo>)
        ensures
            option_info_view(r) == self@.info(key@),
    {
        let k = key.to_owned();
        proof {
            lemma_last_index_of(self@.schema, k@);
        }
        match self.schema_index(&k) {
            Some(i) => Some(self.schema[i].duplicate()),
            None => None,
        }
    }

    /// The current value of `key`: its override, else its default, else
    /// `fallback`, else empty text. Never fails.
    pub fn get(&self, key: &str, fallback: Option<Setting>) -> (r: Setting)
        ensures
            r@ == self@.get(key@, option_view(fallback)),
    {
        let k = key.to_owned();
        proof {
            lemma_last_index_of(self@.schema, k@);
            lemma_last_index_of(self@.overrides, k@);
        }
        match self.override_index(&k) {
            Some(i) => self.overrides[i].1.duplicate(),
            None => match self.schema_index(&k) {
                Some(i) => self.schema[i].default.duplicate(),
                None => match fallback {
                    Some(f) => f,
                    None => Setting::String(String::new()),
                },
            },
        }
    }

    /// Sets `key` to `value`, for a key of the schema or not. With autosave
    /// on, the write that persists it is returned; with autosave off nothing
    /// is to be written.
    pub fn set(&mut self, key: &str, value: Setting) -> (w: Option<Persist>)
        requires
            old(self)@.wf(),
        ensures
            final(self)@.wf(),
            final(self)@ == old(self)@.set(key@, value@),
            match w {
                Some(p) => old(self)@.autosave && p.key@ == key@ && p.raw@ == render_setting(value@),
                None => !old(self)@.autosave,
            },
    {
        let raw = value.to_string();
        self.put_override(key.to_owned(), value);
        if self.autosave {
            Some(Persist { key: key.to_owned(), raw })
        } else {
            None
        }
    }

    /// Whether autosave is on.
    pub fn autosave(&self) -> (r: bool)
        ensures
            r == self@.autosave,
    {
        self.autosave
    }

    /// The keys that match `pattern`: `"*"` matches all, any other pattern
    /// the keys that contain it. Schema keys come first in registration
    /// order, then orphan override keys in the order they were first seen;
    /// each key once.
    pub fn find(&self, pattern: &str) -> (r: Vec<String>)
        ensures
            r@.map_values(|s: String| s@) == self@.find(pattern@),
    {
        let pat = chars_of(pattern);
        let ghost m = self@;
        let mut out: Vec<String> = Vec::new();
        let mut i: usize = 0;
        assert(out@.map_values(|s: String| s@) =~= matching(
            pattern@,
            m.schema_keys().subrange(0, 0),
        ));
        while i < self.schema.len()
            invariant
                m == self@,
                i <= self.schema@.len(),
                pat@ == pattern@,
                out@.map_values(|s: String| s@) == matching(
                    pattern@,
                    m.schema_keys().subrange(0, i as int),
                ),
            decreases self.schema@.len() - i,
        {
            let ghost ks = m.schema_keys().subrange(0, i + 1);
            assert(ks.drop_last() =~= m.schema_keys().subrange(0, i as int));
            assert(ks.last() == self.schema@[i as int].key@);
            if matches_pattern(&pat, &self.schema[i].key) {
                out.push(self.schema[i].key.clone());
            }
            assert(out@.map_values(|s: String| s@) =~= matching(pattern@, ks));
            i += 1;
        }
        assert(m.schema_keys().subrange(0, i as int) =~= m.schema_keys());
        let ghost head = out@.map_values(|s: String| s@);
        let mut j: usize = 0;
        assert(keys_outside(m.override_keys().subrange(0, 0), m.schema_keys()) =~= Seq::<
            Seq<char>,
        >::empty());
        assert(out@.map_values(|s: String| s@) =~= head + matching(
            pattern@,
            keys_outside(m.override_keys().subrange(0, 0), m.schema_keys()),
        ));
        while j < self.overrides.len()
            invariant
                m == self@,
                j <= self.overrides@.len(),
                pat@ == pattern@,
                head == matching(pattern@, m.schema_keys()),
                out@.map_values(|s: String| s@) == head + matching(
                    pattern@,
                    keys_outside(m.override_keys().subrange(0, j as int), m.schema_keys()),
                ),
            decreases self.overrides@.len() - j,
        {
            let ghost ks = m.override_keys().subrange(0, j + 1);
            let ghost prev = keys_outside(m.override_keys().subrange(0, j as int), m.schema_keys());
            assert(ks.drop_last() =~= m.override_keys().subrange(0, j as int));
            assert(ks.last() == self.overrides@[j as int].0@);
            proof {
                lemma_last_index_of(m.schema, ks.last());
            }
            let known = self.schema_index(&self.overrides[j].0).is_some();
            if !known {
                assert(keys_outside(ks, m.schema_keys()) == prev.push(ks.last()));
                assert(prev.push(ks.last()).drop_last() =~= prev);
                if matches_pattern(&pat, &self.overrides[j].0) {
                    let ghost before = out@.map_values(|s: String| s@);
                    out.push(self.overrides[j].0.clone());
                    assert(matching(pattern@, prev.push(ks.last())) == matching(pattern@, prev).push(
                        ks.last(),
                    ));
                    assert(out@.map_values(|s: String| s@) =~= before.push(ks.last()));
                } else {
                    assert(matching(pattern@, prev.push(ks.last())) == matching(pattern@, prev));
                }
            } else {
                assert(keys_outside(ks, m.schema_keys()) == prev);
            }
            assert(out@.map_values(|s: String| s@) =~= head + matching(
                pattern@,
                keys_outside(ks, m.schema_keys()),
            ));
            j += 1;
        }
        assert(m.override_keys().subrange(0, j as int) =~= m.override_keys());
        out
    }

    /// Index of the override for `key`.
    fn override_index(&self, key: &String) -> (r: Option<usize>)
        ensures
            match r {
                Some(i) => i == last_index_of(self@.overrides, key@),
                None => last_index_of(self@.overrides, key@) == -1,
            },
    {
        let ghost ov = self@.overrides;
        let mut i: usize = self.overrides.len();
        while i > 0
            invariant
                i <= self.overrides@.len(),
                ov == self@.overrides,
                forall|j: int| i <= j < ov.len() ==> ov[j].0 != key@,
            decreases i,
        {
            assert(ov[i - 1].0 == self.overrides@[i - 1].0@);
            if self.overrides[i - 1].0 == *key {
                proof {
                    lemma_last_index_at(ov, key@, i - 1);
                }
                return Some(i - 1);
            }
            i -= 1;
        }
        proof {
            lemma_last_index_at(ov, key@, -1);
        }
        None
    }

    /// Index of the schema entry for `key`.
    fn schema_index(&self, key: &String) -> (r: Option<usize>)
        ensures
            match r {
                Some(i) => i == last_index_of(self@.schema, key@),
                None => last_index_of(self@.schema, key@) == -1,
            },
    {
        let ghost sc = self@.schema;
        let mut i: usize = self.schema.len();
        while i > 0
            invariant
                i <= self.schema@.len(),
                sc == self@.schema,
                forall|j: int| i <= j < sc.len() ==> sc[j].0 != key@,
            decreases i,
        {
            assert(sc[i - 1].0 == self.schema@[i - 1].key@);
            if self.schema[i - 1].key == *key {
                proof {
                    lemma_last_index_at(sc, key@, i - 1);
                }
                return Some(i - 1);
            }
            i -= 1;
        }
        proof {
            lemma_last_index_at(sc, key@, -1);
        }
        None
    }
}

} // verus!

verus! {

proof fn lemma_matching_all(keys: Seq<Seq<char>>)
    ensures
        matching(seq!['*'], keys) == keys,
    decreases keys.len(),
{
    if keys.len() > 0 {
        lemma_matching_all(keys.drop_last());
        assert(keys.drop_last().push(keys.last()) =~= keys);
    }
}

proof fn lemma_keys_outside(keys: Seq<Seq<char>>, known: Seq<Seq<char>>)
    ensures
        forall|k: Seq<char>|
            keys_outside(keys, known).contains(k) <==> (keys.contains(k) && !known.contains(k)),
        keys.no_duplicates() ==> keys_outside(keys, known).no_duplicates(),
    decreases keys.len(),
{
    if keys.len() > 0 {
        let prev = keys.drop_last();
        lemma_keys_outside(prev, known);
        assert forall|k: Seq<char>| keys.contains(k) <==> (prev.contains(k) || k == keys.last()) by {
            if keys.contains(k) && k != keys.last() {
                let i = choose|i: int| 0 <= i < keys.len() && keys[i] == k;
                assert(prev[i] == k);
            }
            if prev.contains(k) {
                let i = choose|i: int| 0 <= i < prev.len() && prev[i] == k;
                assert(keys[i] == k);
            }
            if k == keys.last() {
                assert(keys[keys.len() - 1] == k);
            }
        }
        let r = keys_outside(prev, known);
        if !known.contains(keys.last()) {
            assert forall|k: Seq<char>| r.push(keys.last()).contains(k) <==> (r.contains(k) || k
                == keys.last()) by {
                if r.push(keys.last()).contains(k) && k != keys.last() {
                    let i = choose|i: int| 0 <= i < r.len() + 1 && r.push(keys.last())[i] == k;
                    assert(r[i] == k);
                }
                if r.contains(k) {
                    let i = choose|i: int| 0 <= i < r.len() && r[i] == k;
                    assert(r.push(keys.last())[i] == k);
                }
                if k == keys.last() {
                    assert(r.push(keys.last())[r.len() as int] == k);
                }
            }
            if keys.no_duplicates() {
                assert(!prev.contains(keys.last())) by {
                    if prev.contains(keys.last()) {
                        let i = choose|i: int| 0 <= i < prev.len() && prev[i] == keys.last();
                        assert(keys[i] == keys[keys.len() - 1]);
                    }
                }
                assert(prev.no_duplicates()) by {
                    assert forall|i: int, j: int|
                        0 <= i < prev.len() && 0 <= j < prev.len() && i != j implies prev[i]
                        != prev[j] by {
                        assert(prev[i] == keys[i] && prev[j] == keys[j]);
                    }
                }
                assert forall|i: int, j: int|
                    0 <= i < r.len() + 1 && 0 <= j < r.len() + 1 && i != j implies r.push(
                    keys.last(),
                )[i] != r.push(keys.last())[j] by {
                    if i < r.len() && j == r.len() {
                        assert(r.contains(r[i]));
                    }
                    if j < r.len() && i == r.len() {
                        assert(r.contains(r[j]));
                    }
                }
            }
        } else if keys.no_duplicates() {
            assert(prev.no_duplicates()) by {
                assert forall|i: int, j: int|
                    0 <= i < prev.len() && 0 <= j < prev.len() && i != j implies prev[i]
                    != prev[j] by {
                    assert(prev[i] == keys[i] && prev[j] == keys[j]);
                }
            }
        }
    }
}

/// `find("*")` lists every key of the store exactly once: each schema key
/// and each override key, and nothing else.
pub proof fn lemma_wildcard_lists_each_key_once(m: StoreModel)
    requires
        m.wf(),
    ensures
        m.find(seq!['*']) == m.all_keys(),
        m.all_keys().no_duplicates(),
        forall|k: Seq<char>| m.all_keys().contains(k) <==> m.has(k),
{
    lemma_matching_all(m.schema_keys());
    lemma_matching_all(m.orphan_keys());
    lemma_keys_outside(m.override_keys(), m.schema_keys());
    let a = m.schema_keys();
    let b = m.orphan_keys();
    assert forall|k: Seq<char>| (a + b).contains(k) <==> (a.contains(k) || b.contains(k)) by {
        if (a + b).contains(k) {
            let i = choose|i: int| 0 <= i < (a + b).len() && (a + b)[i] == k;
            if i < a.len() {
                assert(a[i] == k);
            } else {
                assert(b[i - a.len()] == k);
            }
        }
        if a.contains(k) {
            let i = choose|i: int| 0 <= i < a.len() && a[i] == k;
            assert((a + b)[i] == k);
        }
        if b.contains(k) {
            let i = choose|i: int| 0 <= i < b.len() && b[i] == k;
            assert((a + b)[a.len() + i] == k);
        }
    }
    assert forall|i: int, j: int|
        0 <= i < (a + b).len() && 0 <= j < (a + b).len() && i != j implies (a + b)[i] != (a
        + b)[j] by {
        if i < a.len() && j >= a.len() {
            assert(b.contains((a + b)[j]));
            assert(a.contains((a + b)[i]));
        }
        if j < a.len() && i >= a.len() {
            assert(b.contains((a + b)[i]));
            assert(a.contains((a + b)[j]));
        }
    }
}

/// After `set(key, value)`, `get(key, _)` gives `value`, whatever the
/// schema default, and every other key keeps its value.
pub proof fn lemma_set_then_get(
    m: StoreModel,
    key: Seq<char>,
    value: SettingModel,
    other: Seq<char>,
    fallback: Option<SettingModel>,
)
    ensures
        m.set(key, value).get(key, fallback) == value,
        other != key ==> m.set(key, value).get(other, fallback) == m.get(other, fallback),
{
    lemma_upsert(m.overrides, key, value, key);
    lemma_upsert(m.overrides, key, value, other);
}

proof fn lemma_loaded(
    overrides: Seq<(Seq<char>, SettingModel)>,
    persisted: Seq<(Seq<char>, Seq<char>)>,
    k: Seq<char>,
)
    ensures
        lookup(loaded(overrides, persisted), k) == match lookup(persisted, k) {
            Some(raw) => Some(parse_setting(raw)),
            None => lookup(overrides, k),
        },
        keys_of(overrides).no_duplicates() ==> keys_of(
            loaded(overrides, persisted),
        ).no_duplicates(),
    decreases persisted.len(),
{
    if persisted.len() > 0 {
        let prev = loaded(overrides, persisted.drop_last());
        lemma_loaded(overrides, persisted.drop_last(), k);
        lemma_upsert(prev, persisted.last().0, parse_setting(persisted.last().1), k);
        if keys_of(overrides).no_duplicates() {
            lemma_upsert_no_duplicates(prev, persisted.last().0, parse_setting(persisted.last().1));
        }
    }
}

proof fn lemma_registered(infos: Seq<InfoModel>, k: Seq<char>)
    ensures
        keys_of(registered(infos)).no_duplicates(),
        keys_of(registered(infos)).contains(k) <==> exists|i: int|
            0 <= i < infos.len() && #[trigger] infos[i].key == k,
    decreases infos.len(),
{
    if infos.len() > 0 {
        let prev = infos.drop_last();
        let r = registered(prev);
        lemma_registered(prev, k);
        lemma_registered(prev, infos.last().key);
        lemma_last_index_of(r, infos.last().key);
        lemma_upsert_no_duplicates(r, infos.last().key, infos.last());
        lemma_upsert(r, infos.last().key, infos.last(), k);
        if !keys_of(r).contains(infos.last().key) {
            assert(upsert(r, infos.last().key, infos.last()) == r.push(
                (infos.last().key, infos.last()),
            ));
        }
        if exists|i: int| 0 <= i < infos.len() && #[trigger] infos[i].key == k {
            let i = choose|i: int| 0 <= i < infos.len() && #[trigger] infos[i].key == k;
            if i < infos.len() - 1 {
                assert(prev[i].key == k);
            }
        }
        if exists|i: int| 0 <= i < prev.len() && #[trigger] prev[i].key == k {
            let i = choose|i: int| 0 <= i < prev.len() && #[trigger] prev[i].key == k;
            assert(infos[i].key == k);
        }
    }
}

/// A store opened on a schema and on persisted pairs has unique keys.
pub proof fn lemma_opened_wf(
    schema: Seq<InfoModel>,
    persisted: Seq<(Seq<char>, Seq<char>)>,
    autosave: bool,
)
    ensures
        opened(schema, persisted, autosave).wf(),
{
    lemma_registered(schema, Seq::empty());
    lemma_loaded(Seq::empty(), persisted, Seq::empty());
}

/// A persisted key that the schema lacks is kept: `get` reads its persisted
/// text, `find("*")` lists it, and it has no schema entry.
pub proof fn lemma_orphan_kept(
    schema: Seq<InfoModel>,
    persisted: Seq<(Seq<char>, Seq<char>)>,
    autosave: bool,
    key: Seq<char>,
    raw: Seq<char>,
    fallback: Option<SettingModel>,
)
    requires
        forall|i: int| 0 <= i < schema.len() ==> #[trigger] schema[i].key != key,
        lookup(persisted, key) == Some(raw),
    ensures
        opened(schema, persisted, autosave).get(key, fallback) == parse_setting(raw),
        opened(schema, persisted, autosave).info(key) is None,
        opened(schema, persisted, autosave).find(seq!['*']).contains(key),
{
    let m = opened(schema, persisted, autosave);
    lemma_opened_wf(schema, persisted, autosave);
    lemma_registered(schema, key);
    lemma_last_index_of(m.schema, key);
    lemma_loaded(Seq::empty(), persisted, key);
    lemma_last_index_of(m.overrides, key);
    lemma_wildcard_lists_each_key_once(m);
    assert(m.has(key));
    assert(m.all_keys().contains(key));
}

/// Opening the store again on what the backend holds after a `set`: with
/// autosave on, the write that `set` handed back (an upsert of the value's
/// text) makes the new value visible; with autosave off nothing was written,
/// so the value from before the `set` is seen. The first case needs a value
/// that reading its own text gives back (a text value that reads as a
/// number or a Boolean does not).
pub proof fn lemma_reopen_after_set(
    schema: Seq<InfoModel>,
    persisted: Seq<(Seq<char>, Seq<char>)>,
    autosave: bool,
    key: Seq<char>,
    value: SettingModel,
    fallback: Option<SettingModel>,
)
    requires
        autosave ==> parse_setting(render_setting(value)) == value,
    ensures
        ({
            let before = opened(schema, persisted, autosave);
            let backing = if autosave {
                upsert(persisted, key, render_setting(value))
            } else {
                persisted
            };
            let reopened = opened(schema, backing, autosave);
            reopened.get(key, fallback) == if autosave {
                before.set(key, value).get(key, fallback)
            } else {
                before.get(key, fallback)
            }
        }),
{
    let before = opened(schema, persisted, autosave);
    lemma_set_then_get(before, key, value, key, fallback);
    if autosave {
        let backing = upsert(persisted, key, render_setting(value));
        lemma_upsert(persisted, key, render_setting(value), key);
        lemma_loaded(Seq::empty(), backing, key);
    }
}

} // verus!
