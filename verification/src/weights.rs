//! Gathering a model's weights: which shard files the index names, which
//! tensors each shard gives, and whether together they are exactly the
//! tensors that the configuration asks for.
use vstd::prelude::*;

use crate::json::{field, lemma_member_models_index, str_eq, Json, JsonModel};
use crate::config::{Config, ConfigModel};
use crate::safetensors::{bf16_values, checked_product, Place, Shard, Tensor};
use crate::text::{decimal, decimal_text, list_string, list_text};
use vstd::string::StringExecFns;

verus! {

broadcast use vstd::seq::group_seq_axioms;

/* The order of names. */

/// Names are ordered char by char, by code point; a proper prefix comes first.
/// For UTF-8 text this is the order of the bytes, the order of `str`.
pub open spec fn name_less(a: Seq<char>, b: Seq<char>) -> bool
    decreases a.len(),
{
    if a.len() == 0 {
        b.len() > 0
    } else if b.len() == 0 {
        false
    } else if a[0] != b[0] {
        (a[0] as int) < (b[0] as int)
    } else {
        name_less(a.drop_first(), b.drop_first())
    }
}

/// No name comes before itself.
pub proof fn lemma_name_less_irreflexive(a: Seq<char>)
    ensures
        !name_less(a, a),
    decreases a.len(),
{
    if a.len() > 0 {
        lemma_name_less_irreflexive(a.drop_first());
    }
}

/// The order of names is transitive.
pub proof fn lemma_name_less_transitive(a: Seq<char>, b: Seq<char>, c: Seq<char>)
    requires
        name_less(a, b),
        name_less(b, c),
    ensures
        name_less(a, c),
    decreases a.len(),
{
    if a.len() > 0 && b.len() > 0 && c.len() > 0 && a[0] == b[0] && b[0] == c[0] {
        lemma_name_less_transitive(a.drop_first(), b.drop_first(), c.drop_first());
    }
}

/// Of two different names, one comes first.
pub proof fn lemma_name_less_total(a: Seq<char>, b: Seq<char>)
    requires
        a != b,
    ensures
        name_less(a, b) || name_less(b, a),
    decreases a.len(),
{
    if a.len() == 0 && b.len() == 0 {
        assert(a =~= b);
    }
    if a.len() > 0 && b.len() > 0 && a[0] != b[0] {
        assert((a[0] as int) != (b[0] as int));
    }
    if a.len() > 0 && b.len() > 0 && a[0] == b[0] {
        if a.drop_first() == b.drop_first() {
            assert(a.drop_first().len() == b.drop_first().len());
            assert forall|i: int| 0 <= i < a.len() implies a[i] == b[i] by {
                if i > 0 {
                    assert(a[i] == a.drop_first()[i - 1]);
                    assert(b[i] == b.drop_first()[i - 1]);
                }
            }
            assert(a =~= b);
        } else {
            lemma_name_less_total(a.drop_first(), b.drop_first());
        }
    }
}

/// The chars of a string slice.
fn chars_of(s: &str) -> (v: Vec<char>)
    ensures
        v@ == s@,
{
    let mut v: Vec<char> = Vec::new();
    for c in it: s.chars()
        invariant
            it.seq() == s@,
            v@ == s@.take(it.index() as int),
    {
        v.push(c);
    }
    assert(v@ =~= s@);
    v
}

/// Whether `a` comes before `b` in the order of names.
pub fn str_less(a: &str, b: &str) -> (r: bool)
    ensures
        r == name_less(a@, b@),
{
    let x = chars_of(a);
    let y = chars_of(b);
    let mut i: usize = 0;
    assert(x@.skip(0) =~= x@);
    assert(y@.skip(0) =~= y@);
    while i < x.len() && i < y.len() && x[i] == y[i]
        invariant
            i <= x@.len(),
            i <= y@.len(),
            name_less(x@.skip(i as int), y@.skip(i as int)) == name_less(a@, b@),
            x@ == a@,
            y@ == b@,
        decreases x@.len() - i,
    {
        assert(x@.skip(i + 1) =~= x@.skip(i as int).drop_first());
        assert(y@.skip(i + 1) =~= y@.skip(i as int).drop_first());
        i += 1;
    }
    proof {
        let xs = x@.skip(i as int);
        let ys = y@.skip(i as int);
        if i < x@.len() && i < y@.len() {
            assert(xs[0] == x@[i as int]);
            assert(ys[0] == y@[i as int]);
        }
    }
    if i == x.len() {
        i < y.len()
    } else if i == y.len() {
        false
    } else {
        x[i] < y[i]
    }
}

/* The shard files. */

/// The texts of a sequence of strings.
pub open spec fn texts(v: Seq<String>) -> Seq<Seq<char>> {
    v.map_values(|s: String| s@)
}

/// Each name comes before the next: sorted, with no name twice.
pub open spec fn strictly_sorted(s: Seq<Seq<char>>) -> bool {
    forall|i: int, j: int| 0 <= i < j < s.len() ==> name_less(#[trigger] s[i], #[trigger] s[j])
}

/// The strings among the first `k` member values.
pub open spec fn string_values(ms: Seq<(Seq<char>, JsonModel)>, k: int) -> Set<Seq<char>> {
    Set::new(|f: Seq<char>| exists|i: int| 0 <= i < k && #[trigger] ms[i].1 == JsonModel::String(f))
}

/// Inserts `f` into a strictly sorted list of names, unless it is there.
fn insert_sorted(files: &mut Vec<String>, f: &str)
    requires
        strictly_sorted(texts(old(files)@)),
    ensures
        strictly_sorted(texts(final(files)@)),
        texts(final(files)@).to_set() == texts(old(files)@).to_set().insert(f@),
{
    let ghost before = texts(files@);
    let mut i: usize = 0;
    while i < files.len() && str_less(files[i].as_str(), f)
        invariant
            i <= files@.len(),
            texts(files@) == before,
            strictly_sorted(before),
            forall|j: int| 0 <= j < i ==> name_less(#[trigger] before[j], f@),
        decreases files@.len() - i,
    {
        i += 1;
    }
    if i < files.len() && crate::json::str_eq(files[i].as_str(), f) {
        assert(texts(files@).to_set() =~= before.to_set().insert(f@)) by {
            assert(before[i as int] == f@);
        }
        return;
    }
    files.insert(i, f.to_owned());
    let ghost after = texts(files@);
    proof {
        assert(after =~= before.insert(i as int, f@));
        if i < before.len() {
            lemma_name_less_total(before[i as int], f@);
        }
        assert forall|a: int, b: int| 0 <= a < b < after.len() implies name_less(
            #[trigger] after[a],
            #[trigger] after[b],
        ) by {
            if b == i {
                assert(name_less(before[a], f@));
            } else if a == i {
                assert(name_less(f@, before[i as int]));
                if b - 1 > i {
                    assert(name_less(before[i as int], before[b - 1]));
                    lemma_name_less_transitive(f@, before[i as int], before[b - 1]);
                }
            } else if a < i && b > i {
                assert(name_less(before[a], before[b - 1]));
            } else if a > i {
                assert(name_less(before[a - 1], before[b - 1]));
            } else {
                assert(name_less(before[a], before[b]));
            }
        }
        assert(after.to_set() =~= before.to_set().insert(f@)) by {
            assert forall|x: Seq<char>| after.contains(x) implies before.to_set().insert(
                f@,
            ).contains(x) by {
                let k = choose|k: int| 0 <= k < after.len() && after[k] == x;
                if k < i {
                    assert(before[k] == x);
                } else if k > i {
                    assert(before[k - 1] == x);
                }
            }
            assert forall|x: Seq<char>| before.to_set().insert(f@).contains(x) implies after.contains(
                x,
            ) by {
                if x == f@ {
                    assert(after[i as int] == x);
                } else {
                    let k = choose|k: int| 0 <= k < before.len() && before[k] == x;
                    if k < i {
                        assert(after[k] == x);
                    } else {
                        assert(after[k + 1] == x);
                    }
                }
            }
        }
    }
}

/// The shard files of a weight map: each string value once, in the order of
/// names.
pub fn shard_files(map: &[(String, Json)]) -> (r: Vec<String>)
    ensures
        strictly_sorted(texts(r@)),
        texts(r@).no_duplicates(),
        texts(r@).to_set() == string_values(Json::member_models(map@), map@.len() as int),
{
    let ghost ms = Json::member_models(map@);
    proof {
        lemma_member_models_index(map@);
    }
    let mut files: Vec<String> = Vec::new();
    let mut k: usize = 0;
    assert(texts(files@).to_set() =~= string_values(ms, 0));
    while k < map.len()
        invariant
            k <= map@.len(),
            ms == Json::member_models(map@),
            ms.len() == map@.len(),
            forall|i: int| 0 <= i < map@.len() ==> #[trigger] ms[i] == (map@[i].0@, map@[i].1.model()),
            strictly_sorted(texts(files@)),
            texts(files@).to_set() == string_values(ms, k as int),
        decreases map@.len() - k,
    {
        let ghost s0 = texts(files@).to_set();
        match map[k].1.as_str() {
            Some(f) => {
                insert_sorted(&mut files, f);
                assert(string_values(ms, k + 1) =~= s0.insert(f@)) by {
                    assert(ms[k as int].1 == JsonModel::String(f@));
                }
            },
            None => {
                assert(string_values(ms, k + 1) =~= s0) by {
                    assert(ms[k as int].1 is String ==> false);
                }
            },
        }
        k += 1;
    }
    proof {
        let t = texts(files@);
        assert forall|i: int, j: int| 0 <= i < t.len() && 0 <= j < t.len() && i != j implies t[i]
            != t[j] by {
            if i < j {
                assert(name_less(t[i], t[j]));
            } else {
                assert(name_less(t[j], t[i]));
            }
            lemma_name_less_irreflexive(t[i]);
        }
    }
    files
}

/* The tensors gathered so far. */

/// Why a model's weights could not be gathered.
#[derive(Debug)]
pub enum ModelError {
    /// The index has no `weight_map` object.
    WeightMap,
    /// The index places the tensor in a shard file that does not hold it.
    NotInShard(String, String),
    /// A tensor that the configuration asks for is missing.
    MissingTensor(String),
    /// A tensor has another shape than the one asked for: the name, the
    /// shape found, the shape asked for.
    Shape(String, Vec<usize>, Vec<usize>),
    /// A tensor that the configuration does not ask for.
    Unused(String),
}

/// A `ModelError` as plain values.
pub enum ModelErrorModel {
    WeightMap,
    NotInShard(Seq<char>, Seq<char>),
    MissingTensor(Seq<char>),
    Shape(Seq<char>, Seq<usize>, Seq<usize>),
    Unused(Seq<char>),
}

impl View for ModelError {
    type V = ModelErrorModel;

    open spec fn view(&self) -> ModelErrorModel {
        match self {
            ModelError::WeightMap => ModelErrorModel::WeightMap,
            ModelError::NotInShard(n, f) => ModelErrorModel::NotInShard(n@, f@),
            ModelError::MissingTensor(n) => ModelErrorModel::MissingTensor(n@),
            ModelError::Shape(n, found, asked) => ModelErrorModel::Shape(n@, found@, asked@),
            ModelError::Unused(n) => ModelErrorModel::Unused(n@),
        }
    }
}

/// The text that reports a model error.
pub open spec fn model_error_text(e: ModelErrorModel) -> Seq<char> {
    match e {
        ModelErrorModel::WeightMap => "weight_map should be an object"@,
        ModelErrorModel::NotInShard(name, file) => name + " should be in "@ + file,
        ModelErrorModel::MissingTensor(name) => "missing tensor "@ + name,
        ModelErrorModel::Shape(name, found, asked) => name + ": shape "@ + list_text(found)
            + " should be "@ + list_text(asked),
        ModelErrorModel::Unused(name) => "unused tensor "@ + name,
    }
}

impl ModelError {
    /// The text that reports the error.
    pub fn message(&self) -> (s: String)
        ensures
            s@ == model_error_text(self@),
    {
        match self {
            ModelError::WeightMap => String::from_str("weight_map should be an object"),
            ModelError::NotInShard(name, file) => {
                let mut s = name.clone();
                s.append(" should be in ");
                s.append(file.as_str());
                s
            },
            ModelError::MissingTensor(name) => {
                let mut s = String::from_str("missing tensor ");
                s.append(name.as_str());
                s
            },
            ModelError::Shape(name, found, asked) => {
                let mut s = name.clone();
                s.append(": shape ");
                s.append(list_string(found.as_slice()).as_str());
                s.append(" should be ");
                s.append(list_string(asked.as_slice()).as_str());
                s
            },
            ModelError::Unused(name) => {
                let mut s = String::from_str("unused tensor ");
                s.append(name.as_str());
                s
            },
        }
    }
}

/// A tensor as plain values: its shape and its bf16 values.
pub open spec fn tensor_model(t: Tensor) -> (Seq<usize>, Seq<u16>) {
    (t.shape@, t.bf16@)
}

/// The names of a list of named tensors.
pub open spec fn entry_names(e: Seq<(String, Tensor)>) -> Seq<Seq<char>> {
    e.map_values(|p: (String, Tensor)| p.0@)
}

/// A list of named tensors as a map from name to tensor.
pub open spec fn entries_map(e: Seq<(String, Tensor)>) -> Map<Seq<char>, (Seq<usize>, Seq<u16>)> {
    Map::new(
        |k: Seq<char>| entry_names(e).contains(k),
        |k: Seq<char>| tensor_model(e[entry_names(e).index_of(k)].1),
    )
}

/// In a list sorted by name, each entry is what its name maps to.
proof fn lemma_entries_map_at(e: Seq<(String, Tensor)>, i: int)
    requires
        strictly_sorted(entry_names(e)),
        0 <= i < e.len(),
    ensures
        entries_map(e).contains_key(e[i].0@),
        entries_map(e)[e[i].0@] == tensor_model(e[i].1),
{
    let names = entry_names(e);
    assert(names[i] == e[i].0@);
    let j = names.index_of(e[i].0@);
    assert(names.contains(e[i].0@));
    if j != i {
        if j < i {
            assert(name_less(names[j], names[i]));
        } else {
            assert(name_less(names[i], names[j]));
        }
        lemma_name_less_irreflexive(names[i]);
    }
}

/// Each tensor of the map holds as many values as its shape asks for.
pub open spec fn well_shaped(m: Map<Seq<char>, (Seq<usize>, Seq<u16>)>) -> bool {
    forall|k: Seq<char>| #[trigger]
        m.contains_key(k) ==> (checked_product(m[k].0) matches Some(n) && n == m[k].1.len())
}

/// Tensors by name, kept sorted by name: each name once, and the least first.
pub struct TensorStore {
    entries: Vec<(String, Tensor)>,
}

impl View for TensorStore {
    type V = Map<Seq<char>, (Seq<usize>, Seq<u16>)>;

    closed spec fn view(&self) -> Map<Seq<char>, (Seq<usize>, Seq<u16>)> {
        entries_map(self.entries@)
    }
}

impl TensorStore {
    #[verifier::type_invariant]
    spec fn sorted(self) -> bool {
        strictly_sorted(entry_names(self.entries@))
    }

    /// A store that holds no tensor.
    pub fn new() -> (s: TensorStore)
        ensures
            s@ == Map::<Seq<char>, (Seq<usize>, Seq<u16>)>::empty(),
    {
        let s = TensorStore { entries: Vec::new() };
        assert(s@ =~= Map::<Seq<char>, (Seq<usize>, Seq<u16>)>::empty());
        s
    }

    /// Stores the tensor under its name, in place of any tensor stored
    /// under that name before.
    pub fn insert(&mut self, name: String, t: Tensor)
        ensures
            final(self)@ == old(self)@.insert(name@, tensor_model(t)),
    {
        proof {
            use_type_invariant(&*self);
        }
        let ghost before = self.entries@;
        let ghost old_names = entry_names(before);
        let mut entries: Vec<(String, Tensor)> = Vec::new();
        std::mem::swap(&mut entries, &mut self.entries);
        let mut i: usize = 0;
        while i < entries.len() && str_less(entries[i].0.as_str(), name.as_str())
            invariant
                i <= entries@.len(),
                entries@ == before,
                strictly_sorted(old_names),
                old_names == entry_names(before),
                forall|j: int| 0 <= j < i ==> name_less(#[trigger] old_names[j], name@),
            decreases entries@.len() - i,
        {
            i += 1;
        }
        let ghost key = name@;
        let ghost model = tensor_model(t);
        let replace = i < entries.len() && str_eq(entries[i].0.as_str(), name.as_str());
        if replace {
            entries.remove(i);
        }
        let ghost middle = entries@;
        entries.insert(i, (name, t));
        let ghost after = entries@;
        proof {
            let new_names = entry_names(after);
            if i < old_names.len() && !replace {
                lemma_name_less_total(old_names[i as int], key);
            }
            assert forall|a: int, b: int| 0 <= a < b < new_names.len() implies name_less(
                #[trigger] new_names[a],
                #[trigger] new_names[b],
            ) by {
                let shift = if replace { 0int } else { 1int };
                if b == i {
                    assert(new_names[a] == old_names[a]);
                } else if a == i {
                    assert(new_names[b] == old_names[b - shift]);
                    if replace {
                        assert(old_names[i as int] == key);
                    } else if b - shift > i {
                        lemma_name_less_transitive(key, old_names[i as int], old_names[b - shift]);
                    }
                } else if a < i && b > i {
                    assert(new_names[a] == old_names[a]);
                    assert(new_names[b] == old_names[b - shift]);
                } else if a > i {
                    assert(new_names[a] == old_names[a - shift]);
                    assert(new_names[b] == old_names[b - shift]);
                } else {
                    assert(new_names[a] == old_names[a]);
                    assert(new_names[b] == old_names[b]);
                }
            }
            let m0 = entries_map(before);
            let m1 = entries_map(after);
            assert forall|k: Seq<char>| #[trigger] m1.contains_key(k) == m0.insert(key, model).contains_key(k) by {
                if m1.contains_key(k) && k != key {
                    let j = new_names.index_of(k);
                    let shift = if replace { 0int } else { 1int };
                    if j < i {
                        assert(old_names[j] == k);
                    } else {
                        assert(old_names[j - shift] == k);
                    }
                }
                if m0.contains_key(k) {
                    let j = old_names.index_of(k);
                    let shift = if replace { 0int } else { 1int };
                    if j < i {
                        assert(new_names[j] == k);
                    } else if j > i || !replace {
                        assert(new_names[j + shift] == k);
                    }
                }
                if k == key {
                    assert(new_names[i as int] == k);
                }
            }
            assert forall|k: Seq<char>| #[trigger] m1.contains_key(k) implies m1[k] == m0.insert(key, model)[k] by {
                let j = new_names.index_of(k);
                lemma_entries_map_at(after, j);
                lemma_name_less_irreflexive(key);
                let shift = if replace { 0int } else { 1int };
                if j < i {
                    assert(new_names[j] == old_names[j]);
                    lemma_entries_map_at(before, j);
                } else if j > i {
                    assert(new_names[j] == old_names[j - shift]);
                    if replace {
                        assert(old_names[i as int] == key);
                        assert(name_less(old_names[i as int], old_names[j]));
                    } else if j - 1 > i {
                        lemma_name_less_transitive(key, old_names[i as int], old_names[j - 1]);
                    }
                    lemma_entries_map_at(before, j - shift);
                }
            }
            assert(m1 =~= m0.insert(key, model));
        }
        self.entries = entries;
    }

    /// Takes the tensor stored under `name` out of the store.
    pub fn take(&mut self, name: &str) -> (r: Option<Tensor>)
        ensures
            match old(self)@.get(name@) {
                Some(m) => r matches Some(t) && tensor_model(t) == m && final(self)@ == old(
                    self,
                )@.remove(name@),
                None => r is None && final(self)@ == old(self)@,
            },
    {
        proof {
            use_type_invariant(&*self);
        }
        let ghost before = self.entries@;
        let ghost old_names = entry_names(before);
        let mut i: usize = 0;
        while i < self.entries.len() && !str_eq(self.entries[i].0.as_str(), name)
            invariant
                i <= before.len(),
                self.entries@ == before,
                old_names == entry_names(before),
                forall|j: int| 0 <= j < i ==> #[trigger] old_names[j] != name@,
            decreases before.len() - i,
        {
            i += 1;
        }
        if i == self.entries.len() {
            assert(!old_names.contains(name@));
            return None;
        }
        proof {
            lemma_entries_map_at(before, i as int);
        }
        let mut entries: Vec<(String, Tensor)> = Vec::new();
        std::mem::swap(&mut entries, &mut self.entries);
        let (_, t) = entries.remove(i);
        let ghost after = entries@;
        proof {
            let new_names = entry_names(after);
            assert forall|a: int, b: int| 0 <= a < b < new_names.len() implies name_less(
                #[trigger] new_names[a],
                #[trigger] new_names[b],
            ) by {
                let a0 = if a < i { a } else { a + 1 };
                let b0 = if b < i { b } else { b + 1 };
                assert(new_names[a] == old_names[a0]);
                assert(new_names[b] == old_names[b0]);
            }
            let m0 = entries_map(before);
            let m1 = entries_map(after);
            lemma_name_less_irreflexive(name@);
            assert forall|k: Seq<char>| #[trigger] m1.contains_key(k) == m0.remove(name@).contains_key(k) by {
                if m1.contains_key(k) {
                    let j = new_names.index_of(k);
                    let j0 = if j < i { j } else { j + 1 };
                    assert(old_names[j0] == k);
                    if k == name@ {
                        if j0 < i {
                            assert(name_less(old_names[j0], old_names[i as int]));
                        } else {
                            assert(name_less(old_names[i as int], old_names[j0]));
                        }
                    }
                }
                if m0.contains_key(k) && k != name@ {
                    let j = old_names.index_of(k);
                    if j < i {
                        assert(new_names[j] == k);
                    } else {
                        assert(new_names[j - 1] == k);
                    }
                }
            }
            assert forall|k: Seq<char>| #[trigger] m1.contains_key(k) implies m1[k] == m0.remove(name@)[k] by {
                let j = new_names.index_of(k);
                lemma_entries_map_at(after, j);
                let j0 = if j < i { j } else { j + 1 };
                assert(old_names[j0] == k);
                lemma_entries_map_at(before, j0);
            }
            assert(m1 =~= m0.remove(name@));
        }
        self.entries = entries;
        Some(t)
    }

    /// The least name in the store, when it holds any tensor.
    pub fn first_name(&self) -> (r: Option<&str>)
        ensures
            match r {
                Some(s) => self@.contains_key(s@) && forall|k: Seq<char>|
                    #[trigger] self@.contains_key(k) && k != s@ ==> name_less(s@, k),
                None => self@.is_empty(),
            },
    {
        proof {
            use_type_invariant(self);
        }
        let ghost names = entry_names(self.entries@);
        if self.entries.len() == 0 {
            assert(self@ =~= Map::<Seq<char>, (Seq<usize>, Seq<u16>)>::empty());
            return None;
        }
        proof {
            lemma_entries_map_at(self.entries@, 0);
            assert forall|k: Seq<char>| #[trigger] self@.contains_key(k) && k != names[0] implies name_less(
                names[0],
                k,
            ) by {
                let j = names.index_of(k);
                assert(names[j] == k);
            }
        }
        Some(self.entries[0].0.as_str())
    }
}

/// The `weight_map` object of a shard index.
pub fn weight_map(index: &Json) -> (r: Result<&[(String, Json)], ModelError>)
    ensures
        match field(index.model(), "weight_map"@) {
            Some(JsonModel::Object(ms)) => r matches Ok(m) && Json::member_models(m@) == ms,
            _ => r matches Err(e) && e@ == ModelErrorModel::WeightMap,
        },
{
    match index.get("weight_map") {
        Some(j) => match j.as_object() {
            Some(m) => Ok(m),
            None => Err(ModelError::WeightMap),
        },
        None => Err(ModelError::WeightMap),
    }
}

/// The tensor a shard holds under `name`, as plain values.
pub open spec fn shard_tensor(places: Map<Seq<char>, Place>, data: Seq<u8>, name: Seq<char>) -> Option<
    (Seq<usize>, Seq<u16>),
> {
    match places.get(name) {
        Some(p) => Some((p.0, bf16_values(data.subrange(p.1 as int, p.2 as int)))),
        None => None,
    }
}

/// Stores, from the `k`th member of the weight map on, the tensor of each
/// member placed in `file`; a member whose tensor the shard lacks is an error.
pub open spec fn spec_collect(
    ms: Seq<(Seq<char>, JsonModel)>,
    file: Seq<char>,
    places: Map<Seq<char>, Place>,
    data: Seq<u8>,
    acc: Map<Seq<char>, (Seq<usize>, Seq<u16>)>,
    k: int,
) -> Result<Map<Seq<char>, (Seq<usize>, Seq<u16>)>, ModelErrorModel>
    decreases ms.len() - k,
{
    if k < 0 || k >= ms.len() {
        Ok(acc)
    } else if ms[k].1 == JsonModel::String(file) {
        match shard_tensor(places, data, ms[k].0) {
            Some(t) => spec_collect(ms, file, places, data, acc.insert(ms[k].0, t), k + 1),
            None => Err(ModelErrorModel::NotInShard(ms[k].0, file)),
        }
    } else {
        spec_collect(ms, file, places, data, acc, k + 1)
    }
}

/// Adds to the store the tensors that the weight map places in `file`,
/// taken from that file's shard.
pub fn collect_shard(map: &[(String, Json)], file: &str, shard: &Shard, store: TensorStore) -> (r:
    Result<TensorStore, ModelError>)
    ensures
        match spec_collect(
            Json::member_models(map@),
            file@,
            shard.places(),
            shard.data(),
            store@,
            0,
        ) {
            Ok(m) => r matches Ok(s) && s@ == m,
            Err(e) => r matches Err(x) && x@ == e,
        },
        well_shaped(store@) ==> (r matches Ok(s) ==> well_shaped(s@)),
{
    let ghost ms = Json::member_models(map@);
    proof {
        lemma_member_models_index(map@);
    }
    let ghost initial = store@;
    let mut acc = store;
    let mut k: usize = 0;
    while k < map.len()
        invariant
            k <= map@.len(),
            initial == store@,
            ms == Json::member_models(map@),
            ms.len() == map@.len(),
            forall|i: int| 0 <= i < map@.len() ==> #[trigger] ms[i] == (map@[i].0@, map@[i].1.model()),
            spec_collect(ms, file@, shard.places(), shard.data(), acc@, k as int) == spec_collect(
                ms,
                file@,
                shard.places(),
                shard.data(),
                initial,
                0,
            ),
            well_shaped(initial) ==> well_shaped(acc@),
        decreases map@.len() - k,
    {
        let placed = match map[k].1.as_str() {
            Some(f) => str_eq(f, file),
            None => false,
        };
        if placed {
            let name = &map[k].0;
            match shard.tensor(name.as_str()) {
                Some(t) => {
                    let ghost before = acc@;
                    let key = name.clone();
                    let count: usize = t.bf16.len();
                    let ghost tm = tensor_model(t);
                    acc.insert(key, t);
                    proof {
                        if well_shaped(initial) {
                            assert forall|k2: Seq<char>| #[trigger] acc@.contains_key(k2) implies
                                (checked_product(acc@[k2].0) matches Some(n) && n == acc@[k2].1.len()) by {
                                if k2 != key@ {
                                    assert(before.contains_key(k2));
                                } else {
                                    assert(acc@[k2] == tm);
                                    assert(tm.1.len() == count);
                                }
                            }
                        }
                    }
                },
                None => {
                    return Err(ModelError::NotInShard(name.clone(), file.to_owned()));
                },
            }
        }
        k += 1;
    }
    Ok(acc)
}

/* The tensors a configuration asks for. */

/// The name of the `j`th tensor of a layer, after the layer's prefix.
pub open spec fn layer_suffix(j: int) -> Seq<char> {
    if j == 0 {
        ".input_layernorm.weight"@
    } else if j == 1 {
        ".self_attn.q_proj.weight"@
    } else if j == 2 {
        ".self_attn.k_proj.weight"@
    } else if j == 3 {
        ".self_attn.v_proj.weight"@
    } else if j == 4 {
        ".self_attn.o_proj.weight"@
    } else if j == 5 {
        ".self_attn.q_norm.weight"@
    } else if j == 6 {
        ".self_attn.k_norm.weight"@
    } else if j == 7 {
        ".post_attention_layernorm.weight"@
    } else if j == 8 {
        ".mlp.gate_proj.weight"@
    } else if j == 9 {
        ".mlp.up_proj.weight"@
    } else {
        ".mlp.down_proj.weight"@
    }
}

/// The name of the `j`th tensor of layer `n`.
pub open spec fn layer_name(n: nat, j: int) -> Seq<char> {
    "model.layers."@ + decimal(n) + layer_suffix(j)
}

/// The shape of the `j`th tensor of a layer: norms are vectors, projections
/// are matrices with a row per output.
pub open spec fn layer_shape(c: ConfigModel, j: int) -> Seq<usize> {
    let hidden = c.hidden_size as usize;
    let inter = c.intermediate_size as usize;
    let dim = c.head_dim as usize;
    let q = (c.num_attention_heads * c.head_dim) as usize;
    let kv = (c.num_key_value_heads * c.head_dim) as usize;
    if j == 0 || j == 7 {
        seq![hidden]
    } else if j == 1 {
        seq![q, hidden]
    } else if j == 2 || j == 3 {
        seq![kv, hidden]
    } else if j == 4 {
        seq![hidden, q]
    } else if j == 5 || j == 6 {
        seq![dim]
    } else if j == 8 || j == 9 {
        seq![inter, hidden]
    } else {
        seq![hidden, inter]
    }
}

/// The tensors a configuration asks for, in the order they are taken: the
/// eleven of each layer, then the embedding and the final norm.
pub open spec fn expected_tensors(c: ConfigModel) -> Seq<(Seq<char>, Seq<usize>)> {
    Seq::new(
        11 * c.num_hidden_layers,
        |i: int| (layer_name((i / 11) as nat, i % 11), layer_shape(c, i % 11)),
    ) + seq![
        ("model.embed_tokens.weight"@, seq![c.vocab_size as usize, c.hidden_size as usize]),
        ("model.norm.weight"@, seq![c.hidden_size as usize]),
    ]
}

/// The least name of a map.
pub open spec fn least_name<V>(m: Map<Seq<char>, V>) -> Seq<char> {
    choose|k: Seq<char>|
        m.contains_key(k) && forall|k2: Seq<char>| #[trigger]
            m.contains_key(k2) && k2 != k ==> name_less(k, k2)
}

/// Takes the expected tensors from the `k`th on out of `acc`, collecting
/// their values after `got`: a tensor missing or of another shape is an
/// error, and so is any tensor left over, the least named one.
pub open spec fn spec_take_all(
    exp: Seq<(Seq<char>, Seq<usize>)>,
    acc: Map<Seq<char>, (Seq<usize>, Seq<u16>)>,
    k: int,
    got: Seq<Seq<u16>>,
) -> Result<Seq<Seq<u16>>, ModelErrorModel>
    decreases exp.len() - k,
{
    if k < 0 || k >= exp.len() {
        if acc.is_empty() {
            Ok(got)
        } else {
            Err(ModelErrorModel::Unused(least_name(acc)))
        }
    } else {
        let (name, shape) = exp[k];
        match acc.get(name) {
            None => Err(ModelErrorModel::MissingTensor(name)),
            Some(t) => if t.0 != shape {
                Err(ModelErrorModel::Shape(name, t.0, shape))
            } else {
                spec_take_all(exp, acc.remove(name), k + 1, got.push(t.1))
            },
        }
    }
}

/// The weights of one layer, as stored: bf16 values.
pub struct LayerWeights {
    pub input_layernorm: Vec<u16>,
    pub q_proj: Vec<u16>,
    pub k_proj: Vec<u16>,
    pub v_proj: Vec<u16>,
    pub o_proj: Vec<u16>,
    pub q_norm: Vec<u16>,
    pub k_norm: Vec<u16>,
    pub post_attention_layernorm: Vec<u16>,
    pub gate_proj: Vec<u16>,
    pub up_proj: Vec<u16>,
    pub down_proj: Vec<u16>,
}

/// The weights of a model, as stored: bf16 values.
pub struct ModelWeights {
    pub embed_tokens: Vec<u16>,
    pub layers: Vec<LayerWeights>,
    pub norm: Vec<u16>,
}

/// The eleven tensors of a layer, in the order they are taken.
pub open spec fn layer_tensors(l: LayerWeights) -> Seq<Seq<u16>> {
    seq![
        l.input_layernorm@,
        l.q_proj@,
        l.k_proj@,
        l.v_proj@,
        l.o_proj@,
        l.q_norm@,
        l.k_norm@,
        l.post_attention_layernorm@,
        l.gate_proj@,
        l.up_proj@,
        l.down_proj@,
    ]
}

/// All tensors of the model, in the order they are taken.
pub open spec fn weights_tensors(w: ModelWeights) -> Seq<Seq<u16>> {
    Seq::new(
        11 * w.layers@.len(),
        |i: int| layer_tensors(w.layers@[i / 11])[i % 11],
    ) + seq![w.embed_tokens@, w.norm@]
}

/// The text after a layer's prefix that names its `j`th tensor.
fn layer_suffix_text(j: usize) -> (s: &'static str)
    requires
        j < 11,
    ensures
        s@ == layer_suffix(j as int),
{
    if j == 0 {
        ".input_layernorm.weight"
    } else if j == 1 {
        ".self_attn.q_proj.weight"
    } else if j == 2 {
        ".self_attn.k_proj.weight"
    } else if j == 3 {
        ".self_attn.v_proj.weight"
    } else if j == 4 {
        ".self_attn.o_proj.weight"
    } else if j == 5 {
        ".self_attn.q_norm.weight"
    } else if j == 6 {
        ".self_attn.k_norm.weight"
    } else if j == 7 {
        ".post_attention_layernorm.weight"
    } else if j == 8 {
        ".mlp.gate_proj.weight"
    } else if j == 9 {
        ".mlp.up_proj.weight"
    } else {
        ".mlp.down_proj.weight"
    }
}

/// The shape the configuration asks of a layer's `j`th tensor.
fn layer_shape_vec(c: &Config, j: usize) -> (v: Vec<usize>)
    requires
        j < 11,
        c.num_attention_heads * c.head_dim <= usize::MAX,
        c.num_key_value_heads * c.head_dim <= usize::MAX,
    ensures
        v@ == layer_shape(c@, j as int),
{
    let hidden = c.hidden_size;
    let inter = c.intermediate_size;
    let dim = c.head_dim;
    let q = c.num_attention_heads * dim;
    let kv = c.num_key_value_heads * dim;
    let v = if j == 0 || j == 7 {
        vec![hidden]
    } else if j == 1 {
        vec![q, hidden]
    } else if j == 2 || j == 3 {
        vec![kv, hidden]
    } else if j == 4 {
        vec![hidden, q]
    } else if j == 5 || j == 6 {
        vec![dim]
    } else if j == 8 || j == 9 {
        vec![inter, hidden]
    } else {
        vec![hidden, inter]
    };
    assert(v@ =~= layer_shape(c@, j as int));
    v
}

/// Whether two shapes are the same.
fn same_shape(a: &Vec<usize>, b: &Vec<usize>) -> (r: bool)
    ensures
        r == (a@ == b@),
{
    if a.len() != b.len() {
        return false;
    }
    let mut i: usize = 0;
    while i < a.len()
        invariant
            i <= a@.len(),
            a@.len() == b@.len(),
            forall|k: int| 0 <= k < i ==> a@[k] == b@[k],
        decreases a@.len() - i,
    {
        if a[i] != b[i] {
            return false;
        }
        i += 1;
    }
    assert(a@ =~= b@);
    true
}

/// Takes the tensor `name` of the given shape out of the store: one step of
/// `spec_take_all`.
fn take_tensor(store: &mut TensorStore, name: String, shape: Vec<usize>) -> (r: Result<
    Vec<u16>,
    ModelError,
>)
    ensures
        match old(store)@.get(name@) {
            None => r matches Err(e) && e@ == ModelErrorModel::MissingTensor(name@),
            Some(t) => if t.0 != shape@ {
                r matches Err(e) && e@ == ModelErrorModel::Shape(name@, t.0, shape@)
            } else {
                r matches Ok(v) && v@ == t.1 && final(store)@ == old(store)@.remove(name@)
            },
        },
{
    match store.take(name.as_str()) {
        None => Err(ModelError::MissingTensor(name)),
        Some(t) => {
            if !same_shape(&t.shape, &shape) {
                return Err(ModelError::Shape(name, t.shape, shape));
            }
            Ok(t.bf16)
        },
    }
}

/// Takes the eleven tensors of layer `n` out of the store.
fn take_layer(store: &mut TensorStore, c: &Config, n: usize, got: Ghost<Seq<Seq<u16>>>) -> (r:
    Result<LayerWeights, ModelError>)
    requires
        n < c.num_hidden_layers,
        c.num_attention_heads * c.head_dim <= usize::MAX,
        c.num_key_value_heads * c.head_dim <= usize::MAX,
    ensures
        match r {
            Ok(l) => spec_take_all(expected_tensors(c@), old(store)@, 11 * n, got@) == spec_take_all(
                expected_tensors(c@),
                final(store)@,
                11 * n + 11,
                got@ + layer_tensors(l),
            ),
            Err(e) => spec_take_all(expected_tensors(c@), old(store)@, 11 * n, got@) == Err::<
                Seq<Seq<u16>>,
                ModelErrorModel,
            >(e@),
        },
{
    let ghost exp = expected_tensors(c@);
    let ghost start = old(store)@;
    let prefix = decimal_text(n);
    let mut parts: Vec<Vec<u16>> = Vec::new();
    let mut j: usize = 0;
    while j < 11
        invariant
            j <= 11,
            n < c.num_hidden_layers,
            c.num_attention_heads * c.head_dim <= usize::MAX,
            c.num_key_value_heads * c.head_dim <= usize::MAX,
            exp == expected_tensors(c@),
            start == old(store)@,
            prefix@ == decimal(n as nat),
            parts@.len() == j,
            spec_take_all(exp, start, 11 * n, got@) == spec_take_all(
                exp,
                store@,
                11 * n + j,
                got@ + parts@.map_values(|v: Vec<u16>| v@),
            ),
        decreases 11 - j,
    {
        let mut name = String::from_str("model.layers.");
        name.append(prefix.as_str());
        name.append(layer_suffix_text(j));
        let shape = layer_shape_vec(c, j);
        let ghost k = 11 * n + j;
        proof {
            assert(name@ =~= layer_name(n as nat, j as int));
            assert(k / 11 == n && k % 11 == j) by (nonlinear_arith)
                requires
                    k == 11 * n + j,
                    j < 11,
            ;
            assert(exp[k] == (name@, shape@));
        }
        let ghost before = parts@.map_values(|v: Vec<u16>| v@);
        match take_tensor(store, name, shape) {
            Ok(v) => {
                parts.push(v);
                assert(parts@.map_values(|v: Vec<u16>| v@) =~= before.push(v@));
                assert(got@ + before.push(v@) =~= (got@ + before).push(v@));
            },
            Err(e) => {
                return Err(e);
            },
        }
        j += 1;
    }
    let ghost all = parts@;
    let down_proj = parts.pop().unwrap();
    let up_proj = parts.pop().unwrap();
    let gate_proj = parts.pop().unwrap();
    let post_attention_layernorm = parts.pop().unwrap();
    let k_norm = parts.pop().unwrap();
    let q_norm = parts.pop().unwrap();
    let o_proj = parts.pop().unwrap();
    let v_proj = parts.pop().unwrap();
    let k_proj = parts.pop().unwrap();
    let q_proj = parts.pop().unwrap();
    let input_layernorm = parts.pop().unwrap();
    let l = LayerWeights {
        input_layernorm,
        q_proj,
        k_proj,
        v_proj,
        o_proj,
        q_norm,
        k_norm,
        post_attention_layernorm,
        gate_proj,
        up_proj,
        down_proj,
    };
    assert(layer_tensors(l) =~= all.map_values(|v: Vec<u16>| v@));
    Ok(l)
}

/// The values of the first `n` layers, tensor by tensor.
pub open spec fn layers_tensors(layers: Seq<LayerWeights>, n: int) -> Seq<Seq<u16>> {
    Seq::new((11 * n) as nat, |i: int| layer_tensors(layers[i / 11])[i % 11])
}

/// A name that comes before every other name of a map is its least name.
proof fn lemma_least_name<V>(m: Map<Seq<char>, V>, k: Seq<char>)
    requires
        m.contains_key(k),
        forall|k2: Seq<char>| #[trigger] m.contains_key(k2) && k2 != k ==> name_less(k, k2),
    ensures
        least_name(m) == k,
{
    let l = least_name(m);
    assert(m.contains_key(l) && forall|k2: Seq<char>| #[trigger]
        m.contains_key(k2) && k2 != l ==> name_less(l, k2));
    if l != k {
        assert(name_less(k, l));
        assert(name_less(l, k));
        lemma_name_less_transitive(k, l, k);
        lemma_name_less_irreflexive(k);
    }
}

/// Takes out of the store exactly the tensors the configuration asks for,
/// as the weights of the model: each must be there with the shape asked
/// for, and none may be left over.
pub fn assemble(c: &Config, store: TensorStore) -> (r: Result<ModelWeights, ModelError>)
    requires
        c.num_attention_heads * c.head_dim <= usize::MAX,
        c.num_key_value_heads * c.head_dim <= usize::MAX,
    ensures
        match spec_take_all(expected_tensors(c@), store@, 0, Seq::empty()) {
            Ok(ts) => r matches Ok(w) && w.layers@.len() == c.num_hidden_layers && weights_tensors(w)
                == ts,
            Err(e) => r matches Err(x) && x@ == e,
        },
        well_shaped(store@) ==> (r matches Ok(w) ==> weights_sized(c@, w)),
        r matches Ok(w) ==> assembled_from(store@, w),
{
    let ghost exp = expected_tensors(c@);
    let ghost initial = store@;
    let mut acc = store;
    let mut layers: Vec<LayerWeights> = Vec::new();
    let mut n: usize = 0;
    assert(layers_tensors(layers@, 0) =~= Seq::<Seq<u16>>::empty());
    while n < c.num_hidden_layers
        invariant
            n <= c.num_hidden_layers,
            c.num_attention_heads * c.head_dim <= usize::MAX,
            c.num_key_value_heads * c.head_dim <= usize::MAX,
            exp == expected_tensors(c@),
            initial == store@,
            layers@.len() == n,
            spec_take_all(exp, initial, 0, Seq::empty()) == spec_take_all(
                exp,
                acc@,
                11 * n,
                layers_tensors(layers@, n as int),
            ),
        decreases c.num_hidden_layers - n,
    {
        let ghost got = layers_tensors(layers@, n as int);
        match take_layer(&mut acc, c, n, Ghost(got)) {
            Ok(l) => {
                let ghost before = layers@;
                layers.push(l);
                proof {
                    let next = layers_tensors(layers@, n + 1);
                    assert forall|i: int| 0 <= i < 11 * n + 11 implies #[trigger] next[i] == (got
                        + layer_tensors(l))[i] by {
                        if i < 11 * n {
                            assert(i / 11 < n) by (nonlinear_arith)
                                requires
                                    0 <= i < 11 * n,
                            ;
                            assert(layers@[i / 11] == before[i / 11]);
                        } else {
                            assert(i / 11 == n && i % 11 == i - 11 * n) by (nonlinear_arith)
                                requires
                                    11 * n <= i < 11 * n + 11,
                            ;
                        }
                    }
                    assert(next =~= got + layer_tensors(l));
                }
            },
            Err(e) => {
                return Err(e);
            },
        }
        n += 1;
    }
    let ghost got = layers_tensors(layers@, n as int);
    let count = c.num_hidden_layers;
    proof {
        assert(exp[11 * count] == ("model.embed_tokens.weight"@, seq![
            c.vocab_size,
            c.hidden_size,
        ]));
        assert(exp[11 * count + 1] == ("model.norm.weight"@, seq![c.hidden_size]));
    }
    let embed_shape = vec![c.vocab_size, c.hidden_size];
    assert(embed_shape@ =~= seq![c.vocab_size, c.hidden_size]);
    let embed_tokens = match take_tensor(
        &mut acc,
        String::from_str("model.embed_tokens.weight"),
        embed_shape,
    ) {
        Ok(v) => v,
        Err(e) => return Err(e),
    };
    let ghost got1 = got.push(embed_tokens@);
    assert(spec_take_all(exp, initial, 0, Seq::empty()) == spec_take_all(
        exp,
        acc@,
        11 * count + 1,
        got1,
    ));
    let norm_shape = vec![c.hidden_size];
    assert(norm_shape@ =~= seq![c.hidden_size]);
    let norm = match take_tensor(&mut acc, String::from_str("model.norm.weight"), norm_shape) {
        Ok(v) => v,
        Err(e) => return Err(e),
    };
    let ghost got2 = got1.push(norm@);
    assert(spec_take_all(exp, initial, 0, Seq::empty()) == spec_take_all(
        exp,
        acc@,
        11 * count + 2,
        got2,
    ));
    assert(exp.len() == 11 * count + 2);
    if let Some(name) = acc.first_name() {
        proof {
            lemma_least_name(acc@, name@);
        }
        return Err(ModelError::Unused(name.to_owned()));
    }
    let w = ModelWeights { embed_tokens, layers, norm };
    assert(weights_tensors(w) =~= got2);
    proof {
        law_assembled_from(c@, initial, w);
        if well_shaped(initial) {
            law_assembled_lengths(c@, initial);
            lemma_weights_sized(c@, w, got2);
        }
    }
    Ok(w)
}

/// When taking the expected tensors from the `k`th on succeeds, the map held
/// exactly those names, each with the shape expected of it.
proof fn lemma_take_all_exact(
    exp: Seq<(Seq<char>, Seq<usize>)>,
    m: Map<Seq<char>, (Seq<usize>, Seq<u16>)>,
    k: int,
    got: Seq<Seq<u16>>,
)
    requires
        0 <= k <= exp.len(),
        spec_take_all(exp, m, k, got) is Ok,
    ensures
        forall|name: Seq<char>|
            #[trigger] m.contains_key(name) <==> exists|i: int| k <= i < exp.len() && exp[i].0 == name,
        forall|i: int| k <= i < exp.len() ==> #[trigger] m.contains_key(exp[i].0) && m[exp[i].0].0 == exp[i].1,
    decreases exp.len() - k,
{
    if k == exp.len() {
        assert(m.is_empty());
        assert forall|name: Seq<char>| !m.contains_key(name) by {
            if m.contains_key(name) {
                assert(m.dom().contains(name));
            }
        }
    } else {
        let (name0, shape0) = exp[k];
        let t = m[name0];
        let rest = m.remove(name0);
        lemma_take_all_exact(exp, rest, k + 1, got.push(t.1));
        assert forall|name: Seq<char>| #[trigger] m.contains_key(name) implies exists|i: int|
            k <= i < exp.len() && exp[i].0 == name by {
            if name == name0 {
                assert(exp[k].0 == name);
            } else {
                assert(rest.contains_key(name));
            }
        }
        assert forall|i: int| k <= i < exp.len() implies #[trigger] m.contains_key(exp[i].0)
            && m[exp[i].0].0 == exp[i].1 by {
            if i > k {
                assert(rest.contains_key(exp[i].0));
            }
        }
    }
}

/// Gathering a model's weights succeeds only when the shards together held
/// exactly the tensors the configuration asks for, each with the shape it
/// asks for: none missing, none of another shape, none left over.
pub proof fn law_assemble_exact(c: ConfigModel, m: Map<Seq<char>, (Seq<usize>, Seq<u16>)>)
    requires
        spec_take_all(expected_tensors(c), m, 0, Seq::empty()) is Ok,
    ensures
        forall|name: Seq<char>| #[trigger]
            m.contains_key(name) <==> exists|i: int|
                0 <= i < expected_tensors(c).len() && expected_tensors(c)[i].0 == name,
        forall|i: int|
            0 <= i < expected_tensors(c).len() ==> #[trigger] m.contains_key(
                expected_tensors(c)[i].0,
            ) && m[expected_tensors(c)[i].0].0 == expected_tensors(c)[i].1,
{
    lemma_take_all_exact(expected_tensors(c), m, 0, Seq::empty());
}

/// When taking the expected tensors from the `k`th on succeeds out of a
/// well-shaped map, each taken tensor holds as many values as its expected
/// shape asks for, in the order taken, after `got`.
proof fn lemma_take_all_sized(
    exp: Seq<(Seq<char>, Seq<usize>)>,
    m: Map<Seq<char>, (Seq<usize>, Seq<u16>)>,
    k: int,
    got: Seq<Seq<u16>>,
)
    requires
        0 <= k <= exp.len(),
        well_shaped(m),
    ensures
        spec_take_all(exp, m, k, got) matches Ok(ts) ==> ts.len() == got.len() + exp.len() - k
            && ts.subrange(0, got.len() as int) == got && forall|i: int|
            k <= i < exp.len() ==> (checked_product(#[trigger] exp[i].1) matches Some(n) && n
                == ts[got.len() + i - k].len()),
    decreases exp.len() - k,
{
    if k < exp.len() {
        let (name, shape) = exp[k];
        if let Some(t) = m.get(name) {
            if t.0 == shape {
                let rest = m.remove(name);
                assert forall|k2: Seq<char>| #[trigger] rest.contains_key(k2) implies (checked_product(
                    rest[k2].0,
                ) matches Some(n) && n == rest[k2].1.len()) by {
                    assert(m.contains_key(k2));
                }
                lemma_take_all_sized(exp, rest, k + 1, got.push(t.1));
                if let Ok(ts) = spec_take_all(exp, m, k, got) {
                    assert(ts.subrange(0, got.len() as int) =~= ts.subrange(0, got.len() + 1int).subrange(
                        0,
                        got.len() as int,
                    ));
                    assert(ts.subrange(0, got.len() as int) =~= got);
                    assert(ts[got.len() as int] == ts.subrange(0, got.len() + 1int)[got.len() as int]);
                    assert(m.contains_key(name));
                }
            }
        }
    } else if let Ok(ts) = spec_take_all(exp, m, k, got) {
        assert(ts.subrange(0, got.len() as int) =~= got);
    }
}

/// Law: when gathering succeeds out of stored tensors that each hold as many
/// values as their shapes ask for, each gathered tensor holds as many values
/// as the shape the configuration asks of it.
pub proof fn law_assembled_lengths(c: ConfigModel, m: Map<Seq<char>, (Seq<usize>, Seq<u16>)>)
    requires
        well_shaped(m),
    ensures
        spec_take_all(expected_tensors(c), m, 0, Seq::empty()) matches Ok(ts) ==> ts.len()
            == expected_tensors(c).len() && forall|i: int|
            0 <= i < ts.len() ==> (checked_product(#[trigger] expected_tensors(c)[i].1) matches Some(
                n,
            ) && n == ts[i].len()),
{
    lemma_take_all_sized(expected_tensors(c), m, 0, Seq::empty());
}

/// Each weight of a layer holds as many values as its shape asks for.
pub open spec fn layer_sized(c: ConfigModel, l: LayerWeights) -> bool {
    let h = c.hidden_size;
    let inter = c.intermediate_size;
    let d = c.head_dim;
    let q = c.num_attention_heads * d;
    let kv = c.num_key_value_heads * d;
    &&& l.input_layernorm@.len() == h
    &&& l.q_proj@.len() == q * h
    &&& l.k_proj@.len() == kv * h
    &&& l.v_proj@.len() == kv * h
    &&& l.o_proj@.len() == h * q
    &&& l.q_norm@.len() == d
    &&& l.k_norm@.len() == d
    &&& l.post_attention_layernorm@.len() == h
    &&& l.gate_proj@.len() == inter * h
    &&& l.up_proj@.len() == inter * h
    &&& l.down_proj@.len() == h * inter
}

/// The model has a layer per configured layer, and each weight holds as many
/// values as its shape asks for.
pub open spec fn weights_sized(c: ConfigModel, w: ModelWeights) -> bool {
    &&& w.layers@.len() == c.num_hidden_layers
    &&& w.embed_tokens@.len() == c.vocab_size * c.hidden_size
    &&& w.norm@.len() == c.hidden_size
    &&& forall|n: int| 0 <= n < w.layers@.len() ==> layer_sized(c, #[trigger] w.layers@[n])
}

proof fn lemma_product_short(a: usize, b: usize)
    ensures
        checked_product(seq![a]) == Some(a),
        checked_product(seq![a, b]) matches Some(n) ==> n == a * b,
{
    assert(seq![a].drop_last() =~= Seq::<usize>::empty());
    assert(seq![a, b].drop_last() =~= seq![a]);
    assert(checked_product(Seq::<usize>::empty()) == Some(1usize));
    assert(seq![a].last() == a);
    assert(seq![a, b].last() == b);
    assert(1 * a == a);
    assert(checked_product(seq![a]) == Some(a));
}

/// Values taken in the expected order, each as many as its expected shape
/// asks for, make weights of the configured sizes.
proof fn lemma_weights_sized(c: ConfigModel, w: ModelWeights, ts: Seq<Seq<u16>>)
    requires
        c.hidden_size <= usize::MAX,
        c.intermediate_size <= usize::MAX,
        c.head_dim <= usize::MAX,
        c.vocab_size <= usize::MAX,
        c.num_attention_heads * c.head_dim <= usize::MAX,
        c.num_key_value_heads * c.head_dim <= usize::MAX,
        w.layers@.len() == c.num_hidden_layers,
        weights_tensors(w) == ts,
        ts.len() == expected_tensors(c).len(),
        forall|i: int|
            0 <= i < ts.len() ==> (checked_product(#[trigger] expected_tensors(c)[i].1) matches Some(
                n,
            ) && n == ts[i].len()),
    ensures
        weights_sized(c, w),
{
    let exp = expected_tensors(c);
    let count = c.num_hidden_layers as int;
    let h = c.hidden_size as usize;
    let inter = c.intermediate_size as usize;
    let d = c.head_dim as usize;
    let q = (c.num_attention_heads * c.head_dim) as usize;
    let kv = (c.num_key_value_heads * c.head_dim) as usize;
    lemma_product_short(c.vocab_size as usize, h);
    lemma_product_short(h, h);
    assert(exp[11 * count] == ("model.embed_tokens.weight"@, seq![c.vocab_size as usize, h]));
    assert(exp[11 * count + 1] == ("model.norm.weight"@, seq![h]));
    assert(checked_product(exp[11 * count + 1].1) matches Some(n) && n == ts[11 * count + 1].len());
    assert(checked_product(exp[11 * count].1) matches Some(n) && n == ts[11 * count].len());
    assert forall|n: int| 0 <= n < w.layers@.len() implies layer_sized(c, #[trigger] w.layers@[n]) by {
        let l = w.layers@[n];
        assert forall|j: int| 0 <= j < 11 implies (checked_product(#[trigger] layer_shape(c, j))
            matches Some(x) && x == layer_tensors(l)[j].len()) by {
            let i = 11 * n + j;
            assert(i / 11 == n && i % 11 == j && 0 <= i < 11 * count) by (nonlinear_arith)
                requires
                    i == 11 * n + j,
                    0 <= j < 11,
                    0 <= n < count,
            ;
            assert(exp[i].1 == layer_shape(c, j));
            assert(ts[i] == layer_tensors(l)[j]);
            assert(checked_product(exp[i].1) matches Some(x) && x == ts[i].len());
        }
        lemma_product_short(h, h);
        lemma_product_short(q, h);
        lemma_product_short(kv, h);
        lemma_product_short(h, q);
        lemma_product_short(d, h);
        lemma_product_short(inter, h);
        lemma_product_short(h, inter);
        assert(checked_product(layer_shape(c, 0)) matches Some(x) && x == layer_tensors(l)[0].len());
        assert(checked_product(layer_shape(c, 1)) matches Some(x) && x == layer_tensors(l)[1].len());
        assert(checked_product(layer_shape(c, 2)) matches Some(x) && x == layer_tensors(l)[2].len());
        assert(checked_product(layer_shape(c, 3)) matches Some(x) && x == layer_tensors(l)[3].len());
        assert(checked_product(layer_shape(c, 4)) matches Some(x) && x == layer_tensors(l)[4].len());
        assert(checked_product(layer_shape(c, 5)) matches Some(x) && x == layer_tensors(l)[5].len());
        assert(checked_product(layer_shape(c, 6)) matches Some(x) && x == layer_tensors(l)[6].len());
        assert(checked_product(layer_shape(c, 7)) matches Some(x) && x == layer_tensors(l)[7].len());
        assert(checked_product(layer_shape(c, 8)) matches Some(x) && x == layer_tensors(l)[8].len());
        assert(checked_product(layer_shape(c, 9)) matches Some(x) && x == layer_tensors(l)[9].len());
        assert(checked_product(layer_shape(c, 10)) matches Some(x) && x == layer_tensors(l)[10].len());
    }
}

/// Law: the tensors asked of layer `n`, by name and shape. Norms are
/// vectors; a projection is a matrix with a row per output: the query
/// projection maps the hidden state to the heads' queries, the key and value
/// projections to the key-value heads, the output projection maps the heads
/// back to the hidden state, and the feed-forward projections go to the
/// intermediate size and back.
pub proof fn law_layer_tensors(c: ConfigModel, n: nat)
    requires
        n < c.num_hidden_layers,
    ensures
        ({
            let exp = expected_tensors(c);
            let p = "model.layers."@ + decimal(n);
            let h = c.hidden_size as usize;
            let inter = c.intermediate_size as usize;
            let d = c.head_dim as usize;
            let q = (c.num_attention_heads * c.head_dim) as usize;
            let kv = (c.num_key_value_heads * c.head_dim) as usize;
            &&& exp[11 * n as int + 0] == (p + ".input_layernorm.weight"@, seq![h])
            &&& exp[11 * n as int + 1] == (p + ".self_attn.q_proj.weight"@, seq![q, h])
            &&& exp[11 * n as int + 2] == (p + ".self_attn.k_proj.weight"@, seq![kv, h])
            &&& exp[11 * n as int + 3] == (p + ".self_attn.v_proj.weight"@, seq![kv, h])
            &&& exp[11 * n as int + 4] == (p + ".self_attn.o_proj.weight"@, seq![h, q])
            &&& exp[11 * n as int + 5] == (p + ".self_attn.q_norm.weight"@, seq![d])
            &&& exp[11 * n as int + 6] == (p + ".self_attn.k_norm.weight"@, seq![d])
            &&& exp[11 * n as int + 7] == (p + ".post_attention_layernorm.weight"@, seq![h])
            &&& exp[11 * n as int + 8] == (p + ".mlp.gate_proj.weight"@, seq![inter, h])
            &&& exp[11 * n as int + 9] == (p + ".mlp.up_proj.weight"@, seq![inter, h])
            &&& exp[11 * n as int + 10] == (p + ".mlp.down_proj.weight"@, seq![h, inter])
        }),
{
    let count = c.num_hidden_layers as int;
    let exp = expected_tensors(c);
    let p = "model.layers."@ + decimal(n);
    assert forall|j: int| 0 <= j < 11 implies #[trigger] exp[11 * n as int + j] == (p + layer_suffix(j), layer_shape(c, j)) by {
        let k = 11 * n as int + j;
        assert(k / 11 == n && k % 11 == j && k < 11 * count) by (nonlinear_arith)
            requires
                k == 11 * n + j,
                0 <= j < 11,
                n < count,
        ;
        assert(layer_name(n, j) =~= p + layer_suffix(j));
    }
}

/// Law: after the layers come the embedding, a row of hidden size per
/// token of the vocabulary, and the final norm, a vector of hidden size.
pub proof fn law_last_tensors(c: ConfigModel)
    ensures
        expected_tensors(c).len() == 11 * c.num_hidden_layers + 2,
        expected_tensors(c)[11 * c.num_hidden_layers as int] == ("model.embed_tokens.weight"@, seq![
            c.vocab_size as usize,
            c.hidden_size as usize,
        ]),
        expected_tensors(c)[11 * c.num_hidden_layers as int + 1] == ("model.norm.weight"@, seq![
            c.hidden_size as usize,
        ]),
{
}

/// When taking the expected tensors, whose names are distinct, from the
/// `k`th on succeeds, each taken tensor's values are those the map holds
/// under its name, in the order taken, after `got`.
proof fn lemma_take_all_values(
    exp: Seq<(Seq<char>, Seq<usize>)>,
    m: Map<Seq<char>, (Seq<usize>, Seq<u16>)>,
    k: int,
    got: Seq<Seq<u16>>,
)
    requires
        0 <= k <= exp.len(),
        forall|i: int, j: int| k <= i < j < exp.len() ==> #[trigger] exp[i].0 != #[trigger] exp[j].0,
    ensures
        spec_take_all(exp, m, k, got) matches Ok(ts) ==> ts.len() == got.len() + exp.len() - k
            && ts.subrange(0, got.len() as int) == got && forall|i: int|
            k <= i < exp.len() ==> #[trigger] ts[got.len() + i - k] == m[exp[i].0].1,
    decreases exp.len() - k,
{
    if k < exp.len() {
        let (name, shape) = exp[k];
        if let Some(t) = m.get(name) {
            if t.0 == shape {
                let rest = m.remove(name);
                lemma_take_all_values(exp, rest, k + 1, got.push(t.1));
                if let Ok(ts) = spec_take_all(exp, m, k, got) {
                    assert(ts.subrange(0, got.len() as int) =~= ts.subrange(0, got.len() + 1int).subrange(
                        0,
                        got.len() as int,
                    ));
                    assert(ts[got.len() as int] == ts.subrange(0, got.len() + 1int)[got.len() as int]);
                    assert forall|i: int| k <= i < exp.len() implies #[trigger] ts[got.len() + i - k]
                        == m[exp[i].0].1 by {
                        if i > k {
                            assert(exp[k].0 != exp[i].0);
                            assert(ts[(got.len() + 1) + i - (k + 1)] == rest[exp[i].0].1);
                        }
                    }
                }
            }
        }
    } else if let Ok(ts) = spec_take_all(exp, m, k, got) {
        assert(ts.subrange(0, got.len() as int) =~= got);
    }
}

/// Layer `n`'s weights are the values stored under the names of its
/// tensors.
pub open spec fn layer_from(m: Map<Seq<char>, (Seq<usize>, Seq<u16>)>, n: nat, l: LayerWeights) -> bool {
    let p = "model.layers."@ + decimal(n);
    &&& l.input_layernorm@ == m[p + ".input_layernorm.weight"@].1
    &&& l.q_proj@ == m[p + ".self_attn.q_proj.weight"@].1
    &&& l.k_proj@ == m[p + ".self_attn.k_proj.weight"@].1
    &&& l.v_proj@ == m[p + ".self_attn.v_proj.weight"@].1
    &&& l.o_proj@ == m[p + ".self_attn.o_proj.weight"@].1
    &&& l.q_norm@ == m[p + ".self_attn.q_norm.weight"@].1
    &&& l.k_norm@ == m[p + ".self_attn.k_norm.weight"@].1
    &&& l.post_attention_layernorm@ == m[p + ".post_attention_layernorm.weight"@].1
    &&& l.gate_proj@ == m[p + ".mlp.gate_proj.weight"@].1
    &&& l.up_proj@ == m[p + ".mlp.up_proj.weight"@].1
    &&& l.down_proj@ == m[p + ".mlp.down_proj.weight"@].1
}

/// Each weight of the model is the values stored under its tensor's name.
pub open spec fn assembled_from(m: Map<Seq<char>, (Seq<usize>, Seq<u16>)>, w: ModelWeights) -> bool {
    &&& w.embed_tokens@ == m["model.embed_tokens.weight"@].1
    &&& w.norm@ == m["model.norm.weight"@].1
    &&& forall|n: int| 0 <= n < w.layers@.len() ==> layer_from(m, n as nat, #[trigger] w.layers@[n])
}

/// Law: the weights that gathering gives are, each, the values stored
/// under the name of its tensor.
pub proof fn law_assembled_from(c: ConfigModel, m: Map<Seq<char>, (Seq<usize>, Seq<u16>)>, w: ModelWeights)
    requires
        w.layers@.len() == c.num_hidden_layers,
        spec_take_all(expected_tensors(c), m, 0, Seq::empty()) == Ok::<
            Seq<Seq<u16>>,
            ModelErrorModel,
        >(weights_tensors(w)),
    ensures
        assembled_from(m, w),
{
    let exp = expected_tensors(c);
    let ts = weights_tensors(w);
    let count = c.num_hidden_layers as int;
    crate::gather::lemma_expected_distinct(c);
    lemma_take_all_values(exp, m, 0, Seq::empty());
    law_last_tensors(c);
    assert(ts[11 * count] == w.embed_tokens@);
    assert(ts[11 * count + 1] == w.norm@);
    assert(ts[0 + 11 * count - 0] == m[exp[11 * count].0].1);
    assert(ts[0 + (11 * count + 1) - 0] == m[exp[11 * count + 1].0].1);
    assert forall|n: int| 0 <= n < w.layers@.len() implies layer_from(m, n as nat, #[trigger] w.layers@[n]) by {
        law_layer_tensors(c, n as nat);
        let l = w.layers@[n];
        assert forall|j: int| 0 <= j < 11 implies #[trigger] layer_tensors(l)[j] == m[exp[11 * n + j].0].1 by {
            let i = 11 * n + j;
            assert(i / 11 == n && i % 11 == j && 0 <= i < 11 * count) by (nonlinear_arith)
                requires
                    i == 11 * n + j,
                    0 <= j < 11,
                    0 <= n < count,
            ;
            assert(ts[i] == layer_tensors(l)[j]);
            assert(ts[0 + i - 0] == m[exp[i].0].1);
        }
        assert(layer_tensors(l)[0] == m[exp[11 * n + 0].0].1);
        assert(layer_tensors(l)[1] == m[exp[11 * n + 1].0].1);
        assert(layer_tensors(l)[2] == m[exp[11 * n + 2].0].1);
        assert(layer_tensors(l)[3] == m[exp[11 * n + 3].0].1);
        assert(layer_tensors(l)[4] == m[exp[11 * n + 4].0].1);
        assert(layer_tensors(l)[5] == m[exp[11 * n + 5].0].1);
        assert(layer_tensors(l)[6] == m[exp[11 * n + 6].0].1);
        assert(layer_tensors(l)[7] == m[exp[11 * n + 7].0].1);
        assert(layer_tensors(l)[8] == m[exp[11 * n + 8].0].1);
        assert(layer_tensors(l)[9] == m[exp[11 * n + 9].0].1);
        assert(layer_tensors(l)[10] == m[exp[11 * n + 10].0].1);
    }
}

} // verus!
