//! A safetensors shard: an 8-byte little-endian header length, a JSON header
//! that places each bf16 tensor in the data that follows, and the data.
use vstd::prelude::*;
use vstd::utf8::*;

use crate::error::{LoadError, LoadSource};
use crate::json::{
    decimal_value, field, first_key, lemma_member_models_index, lemma_models_index, parse,
    spec_parse, str_eq, usize_value, Json, JsonModel, ParseError,
};
use crate::text::str_from_utf8;
use vstd::string::StringExecFns;

verus! {

broadcast use {vstd::seq::group_seq_axioms, vstd::slice::group_slice_axioms};

/// Why a shard was refused.
#[derive(Debug)]
pub enum ShardError {
    /// The file is malformed as a whole.
    Format(&'static str),
    /// The header is not UTF-8.
    Utf8(std::str::Utf8Error),
    /// The header is not JSON.
    Json(ParseError),
    /// The entry of the named tensor is malformed.
    Entry(String, &'static str),
}

/// `ShardError` as a value; the UTF-8 error is opaque.
pub enum ShardErrorModel {
    Format(&'static str),
    Utf8,
    Json(ParseError),
    Entry(Seq<char>, &'static str),
}

impl View for ShardError {
    type V = ShardErrorModel;

    open spec fn view(&self) -> ShardErrorModel {
        match self {
            ShardError::Format(m) => ShardErrorModel::Format(m),
            ShardError::Utf8(_) => ShardErrorModel::Utf8,
            ShardError::Json(e) => ShardErrorModel::Json(*e),
            ShardError::Entry(n, m) => ShardErrorModel::Entry(n@, m),
        }
    }
}

/// The text that reports a shard error.
pub open spec fn shard_error_text(e: ShardErrorModel) -> Seq<char> {
    match e {
        ShardErrorModel::Format(msg) => msg@,
        ShardErrorModel::Utf8 => "header is not utf-8"@,
        ShardErrorModel::Json(_) => "header is not json"@,
        ShardErrorModel::Entry(name, msg) => name + ": "@ + msg@,
    }
}

impl ShardError {
    /// The text that reports the error; the UTF-8 and JSON errors are the
    /// causes behind theirs.
    pub fn message(&self) -> (s: String)
        ensures
            s@ == shard_error_text(self@),
    {
        match self {
            ShardError::Format(msg) => String::from_str(msg),
            ShardError::Utf8(_) => String::from_str("header is not utf-8"),
            ShardError::Json(_) => String::from_str("header is not json"),
            ShardError::Entry(name, msg) => {
                let mut s = name.clone();
                s.append(": ");
                s.append(msg);
                s
            },
        }
    }
}

/// Where a tensor lies: its shape, and its bytes from `start` to `end` of the data.
pub struct TensorInfo {
    shape: Vec<usize>,
    start: usize,
    end: usize,
}

/// A tensor: its shape, and its values as bf16 bit patterns in row-major order.
#[derive(Debug)]
pub struct Tensor {
    pub shape: Vec<usize>,
    pub bf16: Vec<u16>,
}

/// The little-endian number that the bytes write.
pub open spec fn le_value(b: Seq<u8>) -> nat
    decreases b.len(),
{
    if b.len() == 0 {
        0
    } else {
        b[0] as nat + 256 * le_value(b.drop_first())
    }
}

/// The product of the dimensions, computed left to right, when no partial
/// product overflows `usize`.
pub open spec fn checked_product(shape: Seq<usize>) -> Option<usize>
    decreases shape.len(),
{
    if shape.len() == 0 {
        Some(1)
    } else {
        match checked_product(shape.drop_last()) {
            Some(p) => if p * shape.last() <= usize::MAX {
                Some((p * shape.last()) as usize)
            } else {
                None
            },
            None => None,
        }
    }
}

/// The integers of a JSON array, when every item is one.
pub open spec fn usize_items(items: Seq<JsonModel>) -> Option<Seq<usize>>
    decreases items.len(),
{
    if items.len() == 0 {
        Some(Seq::empty())
    } else {
        match (usize_items(items.drop_last()), usize_value(items.last())) {
            (Some(s), Some(v)) => Some(s.push(v as usize)),
            _ => None,
        }
    }
}

/// A tensor's place: shape, start and end within the data.
pub type Place = (Seq<usize>, nat, nat);

pub open spec fn fail(name: Seq<char>, m: &'static str) -> Result<Place, ShardErrorModel> {
    Err(ShardErrorModel::Entry(name, m))
}

/// Checks one header entry against `avail` bytes of data.
pub open spec fn spec_entry(name: Seq<char>, entry: JsonModel, avail: nat) -> Result<Place, ShardErrorModel> {
    match field(entry, seq!['d', 't', 'y', 'p', 'e']) {
        Some(JsonModel::String(d)) if d == seq!['B', 'F', '1', '6'] => {
            match field(entry, seq!['s', 'h', 'a', 'p', 'e']) {
                Some(JsonModel::Array(dims)) => match usize_items(dims) {
                    None => fail(name, "shape should be integers"),
                    Some(shape) => match field(
                        entry,
                        seq!['d', 'a', 't', 'a', '_', 'o', 'f', 'f', 's', 'e', 't', 's'],
                    ) {
                        Some(JsonModel::Array(offs)) => {
                            if offs.len() != 2 {
                                fail(name, "data_offsets should be a pair")
                            } else {
                                match (usize_value(offs[0]), usize_value(offs[1])) {
                                    (None, _) => fail(name, "start should be an integer"),
                                    (Some(_), None) => fail(name, "end should be an integer"),
                                    (Some(start), Some(end)) => {
                                        if !(start <= end && end <= avail) {
                                            fail(name, "data_offsets should be in bounds")
                                        } else {
                                            match checked_product(shape) {
                                                Some(n) if n * 2 <= usize::MAX && n * 2 == end
                                                    - start => Ok((shape, start, end)),
                                                _ => fail(name, "byte size should match shape"),
                                            }
                                        }
                                    },
                                }
                            }
                        },
                        _ => fail(name, "data_offsets should be an array"),
                    },
                },
                _ => fail(name, "shape should be an array"),
            }
        },
        _ => fail(name, "dtype should be BF16"),
    }
}

pub open spec fn metadata_key() -> Seq<char> {
    seq!['_', '_', 'm', 'e', 't', 'a', 'd', 'a', 't', 'a', '_', '_']
}

/// Checks the entries from `k` on, adding each tensor to `acc`; a later entry
/// with the same name replaces an earlier one.
pub open spec fn spec_entries(
    entries: Seq<(Seq<char>, JsonModel)>,
    k: int,
    avail: nat,
    acc: Map<Seq<char>, Place>,
) -> Result<Map<Seq<char>, Place>, ShardErrorModel>
    decreases entries.len() - k,
{
    if k < 0 || k >= entries.len() {
        Ok(acc)
    } else if entries[k].0 == metadata_key() {
        spec_entries(entries, k + 1, avail, acc)
    } else {
        match spec_entry(entries[k].0, entries[k].1, avail) {
            Err(e) => Err(e),
            Ok(place) => spec_entries(entries, k + 1, avail, acc.insert(entries[k].0, place)),
        }
    }
}

/// The header of a shard file: where the data starts, and the parsed JSON.
pub open spec fn spec_header(b: Seq<u8>) -> Result<(nat, JsonModel), ShardErrorModel> {
    if b.len() < 8 {
        Err(ShardErrorModel::Format("file too short"))
    } else {
        let header_len = le_value(b.take(8));
        if header_len > usize::MAX {
            Err(ShardErrorModel::Format("header length does not fit usize"))
        } else if header_len > b.len() - 8 {
            Err(ShardErrorModel::Format("header extends past end of file"))
        } else {
            let data_start = (8 + header_len) as nat;
            let head = b.subrange(8, data_start as int);
            if !valid_utf8(head) {
                Err(ShardErrorModel::Utf8)
            } else {
                match spec_parse(head) {
                    Err(e) => Err(ShardErrorModel::Json(e)),
                    Ok(v) => Ok((data_start, v)),
                }
            }
        }
    }
}

/// What a shard file holds: the start of the data, and the place of each tensor.
pub open spec fn spec_shard(b: Seq<u8>) -> Result<(nat, Map<Seq<char>, Place>), ShardErrorModel> {
    match spec_header(b) {
        Err(e) => Err(e),
        Ok((data_start, JsonModel::Object(entries))) => match spec_entries(
            entries,
            0,
            (b.len() - data_start) as nat,
            Map::empty(),
        ) {
            Ok(tensors) => Ok((data_start, tensors)),
            Err(e) => Err(e),
        },
        Ok(_) => Err(ShardErrorModel::Format("header should be an object")),
    }
}

/// A parsed shard: the file's bytes and where each tensor lies in them.
pub struct Shard {
    bytes: Vec<u8>,
    data_start: usize,
    tensors: Vec<(String, TensorInfo)>,
}

/// The bf16 values that little-endian byte pairs write.
pub open spec fn bf16_values(b: Seq<u8>) -> Seq<u16> {
    Seq::new(b.len() / 2, |i: int| (b[2 * i] as nat + 256 * b[2 * i + 1] as nat) as u16)
}

pub closed spec fn info_place(info: TensorInfo) -> Place {
    (info.shape@, info.start as nat, info.end as nat)
}

/// A place that fits `avail` bytes of data and holds two bytes per value.
pub open spec fn place_ok(p: Place, avail: nat) -> bool {
    &&& p.1 <= p.2 <= avail
    &&& checked_product(p.0) matches Some(n) && n * 2 == p.2 - p.1
}

impl Shard {
    #[verifier::type_invariant]
    spec fn inv(self) -> bool {
        &&& self.data_start <= self.bytes@.len()
        &&& forall|i: int|
            0 <= i < self.tensors@.len() ==> place_ok(
                info_place(#[trigger] self.tensors@[i].1),
                (self.bytes@.len() - self.data_start) as nat,
            )
    }

    /// The data: the bytes after the header.
    pub closed spec fn data(&self) -> Seq<u8> {
        self.bytes@.skip(self.data_start as int)
    }

    /// The place of each tensor in the data.
    pub closed spec fn places(&self) -> Map<Seq<char>, Place> {
        vec_places(self.tensors@)
    }
}



/// The places of the listed tensors; of two with one name the later counts.
pub closed spec fn vec_places(t: Seq<(String, TensorInfo)>) -> Map<Seq<char>, Place>
    decreases t.len(),
{
    if t.len() == 0 {
        Map::empty()
    } else {
        vec_places(t.drop_last()).insert(t.last().0@, info_place(t.last().1))
    }
}

/// The last listed tensor with the given name.
pub closed spec fn last_index(t: Seq<(String, TensorInfo)>, k: Seq<char>) -> Option<int>
    decreases t.len(),
{
    if t.len() == 0 {
        None
    } else if t.last().0@ == k {
        Some(t.len() - 1)
    } else {
        last_index(t.drop_last(), k)
    }
}

proof fn lemma_vec_places(t: Seq<(String, TensorInfo)>, k: Seq<char>)
    ensures
        match last_index(t, k) {
            Some(i) => 0 <= i < t.len() && t[i].0@ == k && vec_places(t).contains_key(k)
                && vec_places(t)[k] == info_place(t[i].1),
            None => !vec_places(t).contains_key(k),
        },
    decreases t.len(),
{
    if t.len() > 0 {
        lemma_vec_places(t.drop_last(), k);
    }
}

proof fn lemma_last_index_scan(t: Seq<(String, TensorInfo)>, k: Seq<char>, n: int)
    requires
        0 <= n <= t.len(),
        forall|j: int| n <= j < t.len() ==> (#[trigger] t[j]).0@ != k,
    ensures
        last_index(t, k) == last_index(t.take(n), k),
    decreases t.len() - n,
{
    if n < t.len() {
        assert(t.drop_last().take(n) =~= t.take(n));
        lemma_last_index_scan(t.drop_last(), k, n);
    } else {
        assert(t.take(n) =~= t);
    }
}

fn entry_error(name: &String, msg: &'static str) -> (e: ShardError)
    ensures
        e@ == ShardErrorModel::Entry(name@, msg),
{
    ShardError::Entry(name.clone(), msg)
}

/// Reads the integers of a JSON array.
fn usize_array(items: &[Json]) -> (r: Option<Vec<usize>>)
    ensures
        match usize_items(Json::models(items@)) {
            Some(s) => r matches Some(v) && v@ == s,
            None => r is None,
        },
{
    let ghost ms = Json::models(items@);
    proof {
        lemma_models_index(items@);
        assert(ms.take(0) =~= Seq::<JsonModel>::empty());
    }
    let mut out: Vec<usize> = Vec::new();
    let mut k: usize = 0;
    while k < items.len()
        invariant
            ms == Json::models(items@),
            ms.len() == items@.len(),
            forall|i: int| 0 <= i < items@.len() ==> #[trigger] ms[i] == items@[i].model(),
            k <= items@.len(),
            usize_items(ms.take(k as int)) == Some(out@),
        decreases items@.len() - k,
    {
        proof {
            assert(ms.take(k + 1).drop_last() =~= ms.take(k as int));
            assert(ms.take(k + 1).last() == items@[k as int].model());
        }
        match items[k].as_usize() {
            Some(v) => out.push(v),
            None => {
                proof {
                    lemma_usize_items_prefix(ms, k + 1);
                }
                return None;
            },
        }
        k += 1;
    }
    proof {
        assert(ms.take(items@.len() as int) =~= ms);
    }
    Some(out)
}

/// A prefix that is not all integers spoils the whole array.
proof fn lemma_usize_items_prefix(ms: Seq<JsonModel>, n: int)
    requires
        0 <= n <= ms.len(),
        usize_items(ms.take(n)) is None,
    ensures
        usize_items(ms) is None,
    decreases ms.len() - n,
{
    if n < ms.len() {
        assert(ms.take(n + 1).drop_last() =~= ms.take(n));
        lemma_usize_items_prefix(ms, n + 1);
    } else {
        assert(ms.take(n) =~= ms);
    }
}

/// Multiplies the dimensions left to right, failing on overflow.
fn product(shape: &Vec<usize>) -> (r: Option<usize>)
    ensures
        r == checked_product(shape@),
{
    let mut acc: usize = 1;
    let mut k: usize = 0;
    proof {
        assert(shape@.take(0) =~= Seq::<usize>::empty());
    }
    while k < shape.len()
        invariant
            k <= shape@.len(),
            checked_product(shape@.take(k as int)) == Some(acc),
        decreases shape@.len() - k,
    {
        proof {
            assert(shape@.take(k + 1).drop_last() =~= shape@.take(k as int));
        }
        match acc.checked_mul(shape[k]) {
            Some(p) => acc = p,
            None => {
                proof {
                    lemma_product_prefix(shape@, k + 1);
                }
                return None;
            },
        }
        k += 1;
    }
    proof {
        assert(shape@.take(shape@.len() as int) =~= shape@);
    }
    Some(acc)
}

proof fn lemma_product_prefix(s: Seq<usize>, n: int)
    requires
        0 <= n <= s.len(),
        checked_product(s.take(n)) is None,
    ensures
        checked_product(s) is None,
    decreases s.len() - n,
{
    if n < s.len() {
        assert(s.take(n + 1).drop_last() =~= s.take(n));
        lemma_product_prefix(s, n + 1);
    } else {
        assert(s.take(n) =~= s);
    }
}

/// Checks one header entry against `avail` bytes of data.
fn check_entry(name: &String, entry: &Json, avail: usize) -> (r: Result<TensorInfo, ShardError>)
    ensures
        match spec_entry(name@, entry.model(), avail as nat) {
            Ok(p) => r matches Ok(info) && info_place(info) == p,
            Err(e) => r matches Err(x) && x@ == e,
        },
{
    proof {
        reveal_strlit("dtype");
        reveal_strlit("BF16");
        reveal_strlit("shape");
        reveal_strlit("data_offsets");
        assert("dtype"@ =~= seq!['d', 't', 'y', 'p', 'e']);
        assert("BF16"@ =~= seq!['B', 'F', '1', '6']);
        assert("shape"@ =~= seq!['s', 'h', 'a', 'p', 'e']);
        assert("data_offsets"@ =~= seq!['d', 'a', 't', 'a', '_', 'o', 'f', 'f', 's', 'e', 't', 's']);
    }
    let dtype_ok = match entry.get("dtype") {
        Some(d) => match d.as_str() {
            Some(t) => str_eq(t, "BF16"),
            None => false,
        },
        None => false,
    };
    if !dtype_ok {
        return Err(entry_error(name, "dtype should be BF16"));
    }
    let dims = match entry.get("shape") {
        Some(s) => match s.as_array() {
            Some(a) => a,
            None => return Err(entry_error(name, "shape should be an array")),
        },
        None => return Err(entry_error(name, "shape should be an array")),
    };
    let shape = match usize_array(dims) {
        Some(v) => v,
        None => return Err(entry_error(name, "shape should be integers")),
    };
    let offsets = match entry.get("data_offsets") {
        Some(o) => match o.as_array() {
            Some(a) => a,
            None => return Err(entry_error(name, "data_offsets should be an array")),
        },
        None => return Err(entry_error(name, "data_offsets should be an array")),
    };
    proof {
        lemma_models_index(offsets@);
    }
    if offsets.len() != 2 {
        return Err(entry_error(name, "data_offsets should be a pair"));
    }
    let start = match offsets[0].as_usize() {
        Some(v) => v,
        None => return Err(entry_error(name, "start should be an integer")),
    };
    let end = match offsets[1].as_usize() {
        Some(v) => v,
        None => return Err(entry_error(name, "end should be an integer")),
    };
    if !(start <= end && end <= avail) {
        return Err(entry_error(name, "data_offsets should be in bounds"));
    }
    let fits = match product(&shape) {
        Some(n) => match n.checked_mul(2) {
            Some(m) => m == end - start,
            None => false,
        },
        None => false,
    };
    if !fits {
        return Err(entry_error(name, "byte size should match shape"));
    }
    Ok(TensorInfo { shape, start, end })
}

/// Reads the header length and parses the header.
fn read_header(bytes: &Vec<u8>) -> (r: Result<(usize, Json), ShardError>)
    ensures
        match spec_header(bytes@) {
            Ok((ds, v)) => r matches Ok((d, j)) && d == ds && j.model() == v && d <= bytes@.len(),
            Err(e) => r matches Err(x) && x@ == e,
        },
{
        if bytes.len() < 8 {
            return Err(ShardError::Format("file too short"));
        }
        let v: u64 = bytes[0] as u64 + 256 * (bytes[1] as u64 + 256 * (bytes[2] as u64 + 256 * (
        bytes[3] as u64 + 256 * (bytes[4] as u64 + 256 * (bytes[5] as u64 + 256 * (bytes[6] as u64
            + 256 * bytes[7] as u64))))));
        proof {
            reveal_with_fuel(le_value, 9);
            let h = bytes@.take(8);
            assert(h.drop_first() =~= bytes@.subrange(1, 8));
            assert(h.drop_first().drop_first() =~= bytes@.subrange(2, 8));
            assert(h.drop_first().drop_first().drop_first() =~= bytes@.subrange(3, 8));
            assert(bytes@.subrange(3, 8).drop_first() =~= bytes@.subrange(4, 8));
            assert(bytes@.subrange(4, 8).drop_first() =~= bytes@.subrange(5, 8));
            assert(bytes@.subrange(5, 8).drop_first() =~= bytes@.subrange(6, 8));
            assert(bytes@.subrange(6, 8).drop_first() =~= bytes@.subrange(7, 8));
            assert(bytes@.subrange(7, 8).drop_first() =~= Seq::<u8>::empty());
            assert(v == le_value(h));
        }
        if v > usize::MAX as u64 {
            return Err(ShardError::Format("header length does not fit usize"));
        }
        let header_len = v as usize;
        if header_len > bytes.len() - 8 {
            return Err(ShardError::Format("header extends past end of file"));
        }
        let data_start = 8 + header_len;
        let text = match str_from_utf8(&bytes.as_slice()[8..data_start]) {
            Ok(t) => t,
            Err(e) => return Err(ShardError::Utf8(e)),
        };
        match parse(text) {
            Ok(h) => Ok((data_start, h)),
            Err(e) => Err(ShardError::Json(e)),
        }
}

impl Shard {
    /// Reads a shard from the bytes of its file.
    pub fn parse(bytes: Vec<u8>) -> (r: Result<Shard, ShardError>)
        ensures
            match spec_shard(bytes@) {
                Ok((ds, places)) => r matches Ok(s) && s.data() == bytes@.skip(ds as int)
                    && s.places() == places,
                Err(e) => r matches Err(x) && x@ == e,
            },
    {
        let (data_start, header) = match read_header(&bytes) {
            Ok(h) => h,
            Err(e) => return Err(e),
        };
        let entries = match header.as_object() {
            Some(m) => m,
            None => return Err(ShardError::Format("header should be an object")),
        };
        let avail = bytes.len() - data_start;
        let ghost em = Json::member_models(entries@);
        proof {
            lemma_member_models_index(entries@);
            reveal_strlit("__metadata__");
            assert("__metadata__"@ =~= metadata_key());
        }
        let mut tensors: Vec<(String, TensorInfo)> = Vec::new();
        let mut k: usize = 0;
        while k < entries.len()
            invariant
                em == Json::member_models(entries@),
                em.len() == entries@.len(),
                forall|i: int|
                    0 <= i < entries@.len() ==> #[trigger] em[i] == (
                        entries@[i].0@,
                        entries@[i].1.model(),
                    ),
                header.model() == JsonModel::Object(em),
                "__metadata__"@ == metadata_key(),
                avail == bytes@.len() - data_start,
                data_start <= bytes@.len(),
                spec_shard(bytes@) == match spec_entries(em, k as int, avail as nat, vec_places(tensors@)) {
                    Ok(t) => Ok::<(nat, Map<Seq<char>, Place>), ShardErrorModel>((data_start as nat, t)),
                    Err(e) => Err(e),
                },
                k <= entries@.len(),
                forall|i: int|
                    0 <= i < tensors@.len() ==> place_ok(info_place(#[trigger] tensors@[i].1), avail as nat),
            decreases entries@.len() - k,
        {
            let name = &entries[k].0;
            if str_eq(name.as_str(), "__metadata__") {
                k += 1;
                continue;
            }
            match check_entry(name, &entries[k].1, avail) {
                Ok(info) => {
                    let ghost before = tensors@;
                    tensors.push((name.clone(), info));
                    proof {
                        assert(tensors@.drop_last() =~= before);
                    }
                },
                Err(e) => return Err(e),
            }
            k += 1;
        }
        Ok(Shard { bytes, data_start, tensors })
    }

    /// The tensor with the given name: its shape and its values.
    pub fn tensor(&self, name: &str) -> (r: Option<Tensor>)
        ensures
            match self.places().get(name@) {
                Some(p) => r matches Some(t) && t.shape@ == p.0 && t.bf16@ == bf16_values(
                    self.data().subrange(p.1 as int, p.2 as int),
                ),
                None => r is None,
            },
            r matches Some(t) ==> checked_product(t.shape@) == Some(t.bf16@.len() as usize),
    {
        proof {
            use_type_invariant(self);
        }
        let blen = self.bytes.len();
        let mut n = self.tensors.len();
        let mut found = false;
        while n > 0 && !found
            invariant
                n <= self.tensors@.len(),
                found ==> n > 0 && self.tensors@[n - 1].0@ == name@,
                forall|j: int| n <= j < self.tensors@.len() ==> (#[trigger] self.tensors@[j]).0@ != name@,
            decreases 2 * n + (if found { 0int } else { 1int }),
        {
            if str_eq(self.tensors[n - 1].0.as_str(), name) {
                found = true;
            } else {
                n -= 1;
            }
        }
        proof {
            lemma_last_index_scan(self.tensors@, name@, n as int);
            lemma_vec_places(self.tensors@, name@);
        }
        if !found {
            proof {
                assert(self.tensors@.take(0) =~= Seq::<(String, TensorInfo)>::empty());
            }
            return None;
        }
        let info = &self.tensors[n - 1].1;
        let ghost p = info_place(*info);
        proof {
            let t = self.tensors@.take(n as int);
            assert(t.last() == self.tensors@[n - 1]);
            assert(t.drop_last() =~= self.tensors@.take(n - 1));
            assert(last_index(t, name@) == Some(n - 1));
            assert(self.places().get(name@) == Some(p));
            assert(place_ok(p, (self.bytes@.len() - self.data_start) as nat));
        }
        let from = self.data_start + info.start;
        let count = (info.end - info.start) / 2;
        let mut values: Vec<u16> = Vec::new();
        let mut i: usize = 0;
        while i < count
            invariant
                i <= count,
                self.bytes@.len() <= usize::MAX,
                from + 2 * count <= self.bytes@.len(),
                values@.len() == i,
                forall|q: int| 0 <= q < i ==> #[trigger] values@[q] == (self.bytes@[from + 2 * q] as nat
                    + 256 * self.bytes@[from + 2 * q + 1] as nat) as u16,
            decreases count - i,
        {
            let lo = self.bytes[from + 2 * i] as u16;
            let hi = self.bytes[from + 2 * i + 1] as u16;
            values.push(lo + 256 * hi);
            i += 1;
        }
        let t = Tensor { shape: info.shape.clone(), bf16: values };
        proof {
            assert(t.shape@ =~= p.0);
            assert(t.bf16@ =~= bf16_values(self.data().subrange(p.1 as int, p.2 as int)));
        }
        Some(t)
    }

    /// Loads a shard from what reading its file gave: its bytes, or the
    /// message of the error that reading it met.
    pub fn load(path: &str, bytes: Result<Vec<u8>, String>) -> (r: Result<Shard, LoadError>)
        ensures
            match bytes {
                Err(msg) => r matches Err(e) && e.path()@ == path@ && e.source() == LoadSource::Io(msg),
                Ok(b) => match spec_shard(b@) {
                    Err(se) => r matches Err(e) && e.path()@ == path@ && (e.source() matches LoadSource::Shard(x) && x@ == se),
                    Ok((ds, places)) => r matches Ok(s) && s.data() == b@.skip(ds as int) && s.places() == places,
                },
            },
    {
        match bytes {
            Err(msg) => Err(LoadError::new(path, LoadSource::Io(msg))),
            Ok(b) => match Shard::parse(b) {
                Err(se) => Err(LoadError::new(path, LoadSource::Shard(se))),
                Ok(s) => Ok(s),
            },
        }
    }
}

/// Checking the entries from the `k`th on succeeds exactly when each entry
/// but the metadata checks; each place it adds fits the data.
proof fn lemma_entries_ok(
    entries: Seq<(Seq<char>, JsonModel)>,
    k: int,
    avail: nat,
    acc: Map<Seq<char>, Place>,
)
    requires
        0 <= k <= entries.len(),
    ensures
        spec_entries(entries, k, avail, acc) is Ok <==> forall|i: int|
            k <= i < entries.len() && entries[i].0 != metadata_key() ==> spec_entry(
                #[trigger] entries[i].0,
                entries[i].1,
                avail,
            ) is Ok,
        spec_entries(entries, k, avail, acc) matches Ok(m) ==> {
            &&& forall|x: Seq<char>| #[trigger]
                m.contains_key(x) <==> acc.contains_key(x) || exists|i: int|
                    k <= i < entries.len() && entries[i].0 == x && x != metadata_key()
            &&& (forall|x: Seq<char>| #[trigger] acc.contains_key(x) ==> place_ok(acc[x], avail))
                ==> forall|x: Seq<char>| #[trigger] m.contains_key(x) ==> place_ok(m[x], avail)
        },
    decreases entries.len() - k,
{
    if k < entries.len() {
        let name = entries[k].0;
        if name == metadata_key() {
            lemma_entries_ok(entries, k + 1, avail, acc);
            if let Ok(m) = spec_entries(entries, k, avail, acc) {
                assert forall|x: Seq<char>| #[trigger] m.contains_key(x) <==> acc.contains_key(x) || exists|i: int|
                    k <= i < entries.len() && entries[i].0 == x && x != metadata_key() by {
                    if exists|i: int| k <= i < entries.len() && entries[i].0 == x && x != metadata_key() {
                        let i = choose|i: int| k <= i < entries.len() && entries[i].0 == x && x != metadata_key();
                        assert(i != k);
                    }
                }
            }
        } else {
            lemma_entry_place(name, entries[k].1, avail);
            match spec_entry(name, entries[k].1, avail) {
                Err(e) => {},
                Ok(place) => {
                    let acc1 = acc.insert(name, place);
                    lemma_entries_ok(entries, k + 1, avail, acc1);
                    if let Ok(m) = spec_entries(entries, k, avail, acc) {
                        assert forall|x: Seq<char>| #[trigger] m.contains_key(x) <==> acc.contains_key(x) || exists|i: int|
                            k <= i < entries.len() && entries[i].0 == x && x != metadata_key() by {
                            if exists|i: int| k <= i < entries.len() && entries[i].0 == x && x != metadata_key() {
                                let i = choose|i: int| k <= i < entries.len() && entries[i].0 == x && x != metadata_key();
                                if i == k {
                                    assert(acc1.contains_key(x));
                                }
                            }
                        }
                        if forall|x: Seq<char>| #[trigger] acc.contains_key(x) ==> place_ok(acc[x], avail) {
                            assert forall|x: Seq<char>| #[trigger] acc1.contains_key(x) implies place_ok(acc1[x], avail) by {
                                if x != name {
                                    assert(acc.contains_key(x));
                                }
                            }
                        }
                    }
                },
            }
        }
    }
}

/// A place that an entry gives fits the data.
proof fn lemma_entry_place(name: Seq<char>, entry: JsonModel, avail: nat)
    ensures
        spec_entry(name, entry, avail) matches Ok(p) ==> place_ok(p, avail),
{
}

/// Law: a shard file reads exactly when its header reads as a JSON object
/// and each of its entries but the metadata names a BF16 tensor whose shape
/// is a list of integers and whose data offsets are a pair of integers that
/// lie within the data and span two bytes per value. Then the tensors are
/// the names of those entries, each placed within the data.
pub proof fn law_shard_reads(b: Seq<u8>)
    ensures
        spec_shard(b) is Ok <==> (spec_header(b) matches Ok((ds, JsonModel::Object(entries)))
            && forall|i: int|
            0 <= i < entries.len() && entries[i].0 != metadata_key() ==> spec_entry(
                #[trigger] entries[i].0,
                entries[i].1,
                (b.len() - ds) as nat,
            ) is Ok),
        spec_shard(b) matches Ok((ds, places)) ==> (spec_header(b) matches Ok((
            d,
            JsonModel::Object(entries),
        )) && d == ds && ds <= b.len() && (forall|x: Seq<char>| #[trigger]
            places.contains_key(x) ==> place_ok(places[x], (b.len() - ds) as nat) && exists|i: int|
                0 <= i < entries.len() && entries[i].0 == x && x != metadata_key()) && (forall|i: int|
            0 <= i < entries.len() && entries[i].0 != metadata_key() ==> places.contains_key(
                #[trigger] entries[i].0,
            ))),
{
    if let Ok((ds, JsonModel::Object(entries))) = spec_header(b) {
        lemma_entries_ok(entries, 0, (b.len() - ds) as nat, Map::empty());
    }
}

/// Law: the data holds one bf16 value per two bytes, each the
/// little-endian number of its two bytes, read as the header's length is.
pub proof fn law_bf16_little_endian(b: Seq<u8>, i: int)
    requires
        0 <= i < b.len() / 2,
    ensures
        bf16_values(b).len() == b.len() / 2,
        bf16_values(b)[i] as nat == le_value(b.subrange(2 * i, 2 * i + 2)),
{
    let pair = b.subrange(2 * i, 2 * i + 2);
    assert(pair.drop_first().drop_first() =~= Seq::<u8>::empty());
    assert(pair.drop_first()[0] == b[2 * i + 1]);
    assert(le_value(pair.drop_first()) == b[2 * i + 1] as nat + 256 * le_value(pair.drop_first().drop_first()));
    assert(b[2 * i] as nat + 256 * b[2 * i + 1] as nat <= 0xffff);
}

} // verus!
