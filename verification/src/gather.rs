//! The weights that a whole load gathers: the shards of the files that the
//! weight map names, taken in order, and then the tensors the configuration
//! asks for.
use vstd::prelude::*;

use crate::json::JsonModel;
use crate::safetensors::Place;
use crate::text::decimal;
use crate::safetensors::{bf16_values, checked_product, place_ok};
use crate::weights::{
    expected_tensors, law_assemble_exact, law_assembled_lengths, layer_name, layer_suffix,
    shard_tensor, spec_collect, spec_take_all, string_values, well_shaped, ModelErrorModel,
};
use crate::config::ConfigModel;

verus! {

/// The tensors that the members from the `k`th on place in `f`, each as the
/// shard holds it.
pub open spec fn placed_map(
    ms: Seq<(Seq<char>, JsonModel)>,
    f: Seq<char>,
    places: Map<Seq<char>, Place>,
    data: Seq<u8>,
    k: int,
) -> Map<Seq<char>, (Seq<usize>, Seq<u16>)> {
    Map::new(
        |x: Seq<char>|
            exists|i: int| k <= i < ms.len() && #[trigger] ms[i].0 == x && ms[i].1 == JsonModel::String(f),
        |x: Seq<char>| shard_tensor(places, data, x)->Some_0,
    )
}

/// Each member from the `k`th on that places its tensor in `f` names a
/// tensor of the shard.
pub open spec fn all_placed(
    ms: Seq<(Seq<char>, JsonModel)>,
    f: Seq<char>,
    places: Map<Seq<char>, Place>,
    k: int,
) -> bool {
    forall|i: int|
        k <= i < ms.len() && ms[i].1 == JsonModel::String(f) ==> places.contains_key(#[trigger] ms[i].0)
}

/// Collecting one shard succeeds exactly when every member placed in it
/// names one of its tensors, and then adds those tensors to what was there.
proof fn lemma_collect_closed(
    ms: Seq<(Seq<char>, JsonModel)>,
    f: Seq<char>,
    places: Map<Seq<char>, Place>,
    data: Seq<u8>,
    acc: Map<Seq<char>, (Seq<usize>, Seq<u16>)>,
    k: int,
)
    requires
        0 <= k <= ms.len(),
    ensures
        spec_collect(ms, f, places, data, acc, k) is Ok <==> all_placed(ms, f, places, k),
        spec_collect(ms, f, places, data, acc, k) matches Ok(m) ==> m == acc.union_prefer_right(
            placed_map(ms, f, places, data, k),
        ),
    decreases ms.len() - k,
{
    if k == ms.len() {
        assert(placed_map(ms, f, places, data, k) =~= Map::empty());
        assert(acc.union_prefer_right(placed_map(ms, f, places, data, k)) =~= acc);
    } else {
        let x = ms[k].0;
        if ms[k].1 == JsonModel::String(f) {
            if let Some(t) = shard_tensor(places, data, x) {
                let acc1 = acc.insert(x, t);
                lemma_collect_closed(ms, f, places, data, acc1, k + 1);
                assert(acc1.union_prefer_right(placed_map(ms, f, places, data, k + 1)) =~= acc.union_prefer_right(
                    placed_map(ms, f, places, data, k),
                )) by {
                    assert(placed_map(ms, f, places, data, k).contains_key(x));
                    assert forall|y: Seq<char>|
                        placed_map(ms, f, places, data, k).contains_key(y) && y != x implies placed_map(
                        ms,
                        f,
                        places,
                        data,
                        k + 1,
                    ).contains_key(y) by {
                        let i = choose|i: int|
                            k <= i < ms.len() && #[trigger] ms[i].0 == y && ms[i].1 == JsonModel::String(f);
                        assert(i != k);
                    }
                    assert forall|y: Seq<char>|
                        placed_map(ms, f, places, data, k + 1).contains_key(y) implies placed_map(
                        ms,
                        f,
                        places,
                        data,
                        k,
                    ).contains_key(y) by {
                        let i = choose|i: int|
                            k + 1 <= i < ms.len() && #[trigger] ms[i].0 == y && ms[i].1 == JsonModel::String(f);
                        assert(k <= i);
                    }
                }
                assert(all_placed(ms, f, places, k) <==> all_placed(ms, f, places, k + 1)) by {
                    if all_placed(ms, f, places, k + 1) {
                        assert forall|i: int| k <= i < ms.len() && ms[i].1 == JsonModel::String(f) implies places.contains_key(
                            #[trigger] ms[i].0,
                        ) by {
                            if i == k {
                                assert(places.contains_key(x));
                            }
                        }
                    }
                }
            } else {
                assert(!places.contains_key(ms[k].0));
            }
        } else {
            lemma_collect_closed(ms, f, places, data, acc, k + 1);
            assert(placed_map(ms, f, places, data, k + 1) =~= placed_map(ms, f, places, data, k)) by {
                assert forall|y: Seq<char>|
                    placed_map(ms, f, places, data, k).contains_key(y) implies placed_map(
                    ms,
                    f,
                    places,
                    data,
                    k + 1,
                ).contains_key(y) by {
                    let i = choose|i: int|
                        k <= i < ms.len() && #[trigger] ms[i].0 == y && ms[i].1 == JsonModel::String(f);
                    assert(i != k);
                }
                assert forall|y: Seq<char>|
                    placed_map(ms, f, places, data, k + 1).contains_key(y) implies placed_map(
                    ms,
                    f,
                    places,
                    data,
                    k,
                ).contains_key(y) by {
                    let i = choose|i: int|
                        k + 1 <= i < ms.len() && #[trigger] ms[i].0 == y && ms[i].1 == JsonModel::String(f);
                    assert(k <= i);
                }
            }
            assert(all_placed(ms, f, places, k) <==> all_placed(ms, f, places, k + 1)) by {
                if all_placed(ms, f, places, k + 1) {
                    assert forall|i: int| k <= i < ms.len() && ms[i].1 == JsonModel::String(f) implies places.contains_key(
                        #[trigger] ms[i].0,
                    ) by {
                        assert(i != k);
                    }
                }
            }
        }
    }
}

/// Collects, from the `k`th file on, the tensors that the weight map places
/// in each file, from that file's shard, into `acc`.
pub open spec fn spec_collect_files(
    ms: Seq<(Seq<char>, JsonModel)>,
    files: Seq<Seq<char>>,
    shards: Map<Seq<char>, (Map<Seq<char>, Place>, Seq<u8>)>,
    acc: Map<Seq<char>, (Seq<usize>, Seq<u16>)>,
    k: int,
) -> Result<Map<Seq<char>, (Seq<usize>, Seq<u16>)>, ModelErrorModel>
    decreases files.len() - k,
{
    if k < 0 || k >= files.len() {
        Ok(acc)
    } else {
        match spec_collect(ms, files[k], shards[files[k]].0, shards[files[k]].1, acc, 0) {
            Ok(m) => spec_collect_files(ms, files, shards, m, k + 1),
            Err(e) => Err(e),
        }
    }
}

/// What the files from the `k`th on add, each file's tensors replacing
/// those of earlier files under the same name.
pub open spec fn gathered(
    ms: Seq<(Seq<char>, JsonModel)>,
    files: Seq<Seq<char>>,
    shards: Map<Seq<char>, (Map<Seq<char>, Place>, Seq<u8>)>,
    k: int,
) -> Map<Seq<char>, (Seq<usize>, Seq<u16>)>
    decreases files.len() - k,
{
    if k < 0 || k >= files.len() {
        Map::empty()
    } else {
        placed_map(ms, files[k], shards[files[k]].0, shards[files[k]].1, 0).union_prefer_right(
            gathered(ms, files, shards, k + 1),
        )
    }
}

/// Some member of the weight map gives the name `x` and places it in `f`.
pub open spec fn placed_in(ms: Seq<(Seq<char>, JsonModel)>, f: Seq<char>, x: Seq<char>) -> bool {
    exists|i: int| 0 <= i < ms.len() && #[trigger] ms[i].0 == x && ms[i].1 == JsonModel::String(f)
}

/// Where the tensor `x` is taken from: its place in the shard of the last
/// file, from the `k`th on, in which the weight map places it.
pub open spec fn final_place(
    ms: Seq<(Seq<char>, JsonModel)>,
    files: Seq<Seq<char>>,
    shards: Map<Seq<char>, (Map<Seq<char>, Place>, Seq<u8>)>,
    x: Seq<char>,
    k: int,
) -> Option<Place>
    decreases files.len() - k,
{
    if k < 0 || k >= files.len() {
        None
    } else {
        match final_place(ms, files, shards, x, k + 1) {
            Some(p) => Some(p),
            None => if placed_in(ms, files[k], x) {
                shards[files[k]].0.get(x)
            } else {
                None
            },
        }
    }
}

/// Each place of each file's shard lies within that shard's data and spans
/// two bytes per value, as in every shard that reads.
pub open spec fn shards_fit(
    files: Seq<Seq<char>>,
    shards: Map<Seq<char>, (Map<Seq<char>, Place>, Seq<u8>)>,
) -> bool {
    forall|j: int, y: Seq<char>|
        0 <= j < files.len() && #[trigger] shards[files[j]].0.contains_key(y) ==> place_ok(
            shards[files[j]].0[y],
            shards[files[j]].1.len(),
        )
}

proof fn lemma_union_assoc(
    a: Map<Seq<char>, (Seq<usize>, Seq<u16>)>,
    b: Map<Seq<char>, (Seq<usize>, Seq<u16>)>,
    c: Map<Seq<char>, (Seq<usize>, Seq<u16>)>,
)
    ensures
        a.union_prefer_right(b).union_prefer_right(c) == a.union_prefer_right(b.union_prefer_right(c)),
{
    assert(a.union_prefer_right(b).union_prefer_right(c) =~= a.union_prefer_right(
        b.union_prefer_right(c),
    ));
}

/// Collecting the files from the `k`th on succeeds exactly when each member
/// placed in one of them names a tensor of its shard, and then adds what
/// those files hold.
proof fn lemma_collect_files(
    ms: Seq<(Seq<char>, JsonModel)>,
    files: Seq<Seq<char>>,
    shards: Map<Seq<char>, (Map<Seq<char>, Place>, Seq<u8>)>,
    acc: Map<Seq<char>, (Seq<usize>, Seq<u16>)>,
    k: int,
)
    requires
        0 <= k <= files.len(),
    ensures
        spec_collect_files(ms, files, shards, acc, k) is Ok <==> forall|j: int|
            k <= j < files.len() ==> all_placed(ms, #[trigger] files[j], shards[files[j]].0, 0),
        spec_collect_files(ms, files, shards, acc, k) matches Ok(m) ==> m == acc.union_prefer_right(
            gathered(ms, files, shards, k),
        ),
    decreases files.len() - k,
{
    if k == files.len() {
        assert(acc.union_prefer_right(gathered(ms, files, shards, k)) =~= acc);
    } else {
        let f = files[k];
        let places = shards[f].0;
        let data = shards[f].1;
        lemma_collect_closed(ms, f, places, data, acc, 0);
        if let Ok(m1) = spec_collect(ms, f, places, data, acc, 0) {
            lemma_collect_files(ms, files, shards, m1, k + 1);
            lemma_union_assoc(acc, placed_map(ms, f, places, data, 0), gathered(ms, files, shards, k + 1));
        }
        assert((forall|j: int| k <= j < files.len() ==> all_placed(ms, #[trigger] files[j], shards[files[j]].0, 0))
            <==> (all_placed(ms, f, places, 0) && forall|j: int| k + 1 <= j < files.len() ==> all_placed(ms, #[trigger] files[j], shards[files[j]].0, 0)));
    }
}

/// What the files from the `k`th on add: the names placed in them, each
/// with the shape of its final place; and, where the shards fit, each with
/// as many values as its shape asks for.
proof fn lemma_gathered(
    ms: Seq<(Seq<char>, JsonModel)>,
    files: Seq<Seq<char>>,
    shards: Map<Seq<char>, (Map<Seq<char>, Place>, Seq<u8>)>,
    k: int,
)
    requires
        0 <= k <= files.len(),
        forall|j: int| k <= j < files.len() ==> all_placed(ms, #[trigger] files[j], shards[files[j]].0, 0),
    ensures
        forall|x: Seq<char>| #[trigger]
            gathered(ms, files, shards, k).contains_key(x) <==> exists|j: int|
                k <= j < files.len() && placed_in(ms, #[trigger] files[j], x),
        forall|x: Seq<char>| #[trigger]
            gathered(ms, files, shards, k).contains_key(x) <==> final_place(ms, files, shards, x, k) is Some,
        forall|x: Seq<char>| #[trigger]
            gathered(ms, files, shards, k).contains_key(x) ==> gathered(ms, files, shards, k)[x].0
                == final_place(ms, files, shards, x, k)->Some_0.0,
        shards_fit(files, shards) ==> well_shaped(gathered(ms, files, shards, k)),
    decreases files.len() - k,
{
    let g = gathered(ms, files, shards, k);
    if k == files.len() {
        assert(g =~= Map::empty());
    } else {
        lemma_gathered(ms, files, shards, k + 1);
        let f = files[k];
        let places = shards[f].0;
        let data = shards[f].1;
        let pm = placed_map(ms, f, places, data, 0);
        let rest = gathered(ms, files, shards, k + 1);
        assert(all_placed(ms, f, places, 0));
        assert forall|x: Seq<char>| pm.contains_key(x) <==> placed_in(ms, f, x) by {
            if pm.contains_key(x) {
                let i = choose|i: int| 0 <= i < ms.len() && #[trigger] ms[i].0 == x && ms[i].1 == JsonModel::String(f);
                assert(ms[i].0 == x);
            }
            if placed_in(ms, f, x) {
                let i = choose|i: int| 0 <= i < ms.len() && #[trigger] ms[i].0 == x && ms[i].1 == JsonModel::String(f);
                assert(ms[i].0 == x);
            }
        }
        assert forall|x: Seq<char>| pm.contains_key(x) implies places.contains_key(x) && pm[x] == (
            places[x].0,
            bf16_values(data.subrange(places[x].1 as int, places[x].2 as int)),
        ) by {
            let i = choose|i: int| 0 <= i < ms.len() && #[trigger] ms[i].0 == x && ms[i].1 == JsonModel::String(f);
            assert(ms[i].0 == x);
        }
        assert forall|x: Seq<char>| #[trigger] g.contains_key(x) <==> exists|j: int|
            k <= j < files.len() && placed_in(ms, #[trigger] files[j], x) by {
            if exists|j: int| k <= j < files.len() && placed_in(ms, #[trigger] files[j], x) {
                let j = choose|j: int| k <= j < files.len() && placed_in(ms, #[trigger] files[j], x);
                if j > k {
                    assert(rest.contains_key(x));
                }
            }
            if pm.contains_key(x) {
                assert(placed_in(ms, files[k], x));
            }
            if rest.contains_key(x) {
                let j = choose|j: int| k + 1 <= j < files.len() && placed_in(ms, #[trigger] files[j], x);
                assert(placed_in(ms, files[j], x));
            }
        }
        assert forall|x: Seq<char>| #[trigger] g.contains_key(x) implies final_place(ms, files, shards, x, k) is Some
            && g[x].0 == final_place(ms, files, shards, x, k)->Some_0.0 by {
            if !rest.contains_key(x) {
                assert(pm.contains_key(x));
            }
        }
        assert forall|x: Seq<char>| #[trigger] final_place(ms, files, shards, x, k) is Some implies g.contains_key(x) by {
            if !rest.contains_key(x) {
                assert(placed_in(ms, f, x));
            }
        }
        if shards_fit(files, shards) {
            assert forall|x: Seq<char>| #[trigger] g.contains_key(x) implies (checked_product(g[x].0) matches Some(
                n,
            ) && n == g[x].1.len()) by {
                if !rest.contains_key(x) {
                    assert(pm.contains_key(x));
                    assert(shards[files[k]].0.contains_key(x));
                    assert(place_ok(places[x], data.len()));
                }
            }
        }
    }
}

/* The names the configuration asks for are distinct. */

/// The decimal digits of a number: at least one, each from `0` to `9`.
proof fn lemma_decimal_digits(n: nat)
    ensures
        decimal(n).len() >= 1,
        forall|i: int| 0 <= i < decimal(n).len() ==> '0' <= #[trigger] decimal(n)[i] <= '9',
    decreases n,
{
    if n >= 10 {
        lemma_decimal_digits(n / 10);
        let d = decimal(n / 10);
        assert forall|i: int| 0 <= i < decimal(n).len() implies '0' <= #[trigger] decimal(n)[i] <= '9' by {
            if i < d.len() {
                assert(decimal(n)[i] == d[i]);
            }
        }
    }
}

/// Two numbers with the same decimal digits are equal.
proof fn lemma_decimal_injective(a: nat, b: nat)
    requires
        decimal(a) == decimal(b),
    ensures
        a == b,
    decreases a,
{
    lemma_decimal_digits(a / 10);
    lemma_decimal_digits(b / 10);
    if a >= 10 && b >= 10 {
        assert(decimal(a).drop_last() =~= decimal(a / 10));
        assert(decimal(b).drop_last() =~= decimal(b / 10));
        lemma_decimal_injective(a / 10, b / 10);
        assert(decimal(a).last() == decimal(b).last());
        let ra = a % 10;
        let rb = b % 10;
        assert(0 <= ra < 10 && 0 <= rb < 10);
        assert(decimal(a).last() == ((48 + ra) as u8) as char);
        assert(decimal(b).last() == ((48 + rb) as u8) as char);
        assert(ra == rb);
        assert(a == b) by (nonlinear_arith)
            requires
                a % 10 == b % 10,
                a / 10 == b / 10,
        ;
    } else if a < 10 && b < 10 {
        assert(decimal(a)[0] == decimal(b)[0]);
        assert(decimal(a)[0] == ((48 + a) as u8) as char);
        assert(decimal(b)[0] == ((48 + b) as u8) as char);
    } else if a < 10 {
        assert(decimal(a).len() == 1);
        assert(decimal(b).len() >= 2);
    } else {
        assert(decimal(b).len() == 1);
        assert(decimal(a).len() >= 2);
    }
}

/// The eleven tensors of a layer have distinct names after its prefix.
proof fn lemma_suffix_distinct(j1: int, j2: int)
    requires
        0 <= j1 < 11,
        0 <= j2 < 11,
        j1 != j2,
    ensures
        layer_suffix(j1) != layer_suffix(j2),
{
    reveal_strlit(".input_layernorm.weight");
    assert(layer_suffix(0).len() == 23 && layer_suffix(0)[0] == '.' && layer_suffix(0)[5] == 't' && layer_suffix(0)[11]
        == 'r' && layer_suffix(0)[13] == 'o');
    reveal_strlit(".self_attn.q_proj.weight");
    assert(layer_suffix(1).len() == 24 && layer_suffix(1)[0] == '.' && layer_suffix(1)[5] == '_' && layer_suffix(1)[11]
        == 'q' && layer_suffix(1)[13] == 'p');
    reveal_strlit(".self_attn.k_proj.weight");
    assert(layer_suffix(2).len() == 24 && layer_suffix(2)[0] == '.' && layer_suffix(2)[5] == '_' && layer_suffix(2)[11]
        == 'k' && layer_suffix(2)[13] == 'p');
    reveal_strlit(".self_attn.v_proj.weight");
    assert(layer_suffix(3).len() == 24 && layer_suffix(3)[0] == '.' && layer_suffix(3)[5] == '_' && layer_suffix(3)[11]
        == 'v' && layer_suffix(3)[13] == 'p');
    reveal_strlit(".self_attn.o_proj.weight");
    assert(layer_suffix(4).len() == 24 && layer_suffix(4)[0] == '.' && layer_suffix(4)[5] == '_' && layer_suffix(4)[11]
        == 'o' && layer_suffix(4)[13] == 'p');
    reveal_strlit(".self_attn.q_norm.weight");
    assert(layer_suffix(5).len() == 24 && layer_suffix(5)[0] == '.' && layer_suffix(5)[5] == '_' && layer_suffix(5)[11]
        == 'q' && layer_suffix(5)[13] == 'n');
    reveal_strlit(".self_attn.k_norm.weight");
    assert(layer_suffix(6).len() == 24 && layer_suffix(6)[0] == '.' && layer_suffix(6)[5] == '_' && layer_suffix(6)[11]
        == 'k' && layer_suffix(6)[13] == 'n');
    reveal_strlit(".post_attention_layernorm.weight");
    assert(layer_suffix(7).len() == 32 && layer_suffix(7)[0] == '.' && layer_suffix(7)[5] == '_' && layer_suffix(7)[11]
        == 't' && layer_suffix(7)[13] == 'o');
    reveal_strlit(".mlp.gate_proj.weight");
    assert(layer_suffix(8).len() == 21 && layer_suffix(8)[0] == '.' && layer_suffix(8)[5] == 'g' && layer_suffix(8)[11]
        == 'r' && layer_suffix(8)[13] == 'j');
    reveal_strlit(".mlp.up_proj.weight");
    assert(layer_suffix(9).len() == 19 && layer_suffix(9)[0] == '.' && layer_suffix(9)[5] == 'u' && layer_suffix(9)[11]
        == 'j' && layer_suffix(9)[13] == 'w');
    reveal_strlit(".mlp.down_proj.weight");
    assert(layer_suffix(10).len() == 21 && layer_suffix(10)[0] == '.' && layer_suffix(10)[5] == 'd' && layer_suffix(10)[11]
        == 'r' && layer_suffix(10)[13] == 'j');
    if layer_suffix(j1) == layer_suffix(j2) {
        assert(layer_suffix(j1).len() == layer_suffix(j2).len());
        assert(layer_suffix(j1)[5] == layer_suffix(j2)[5]);
        assert(layer_suffix(j1)[11] == layer_suffix(j2)[11]);
        assert(layer_suffix(j1)[13] == layer_suffix(j2)[13]);
    }
}

/// The tensors of layers have distinct names.
proof fn lemma_layer_names_distinct(n1: nat, j1: int, n2: nat, j2: int)
    requires
        0 <= j1 < 11,
        0 <= j2 < 11,
        n1 != n2 || j1 != j2,
    ensures
        layer_name(n1, j1) != layer_name(n2, j2),
{
    reveal_strlit("model.layers.");
    let p = "model.layers."@;
    let d1 = decimal(n1);
    let d2 = decimal(n2);
    let s1 = layer_suffix(j1);
    let s2 = layer_suffix(j2);
    lemma_decimal_digits(n1);
    lemma_decimal_digits(n2);
    reveal_strlit(".input_layernorm.weight");
    assert(layer_suffix(0).len() == 23 && layer_suffix(0)[0] == '.' && layer_suffix(0)[5] == 't' && layer_suffix(0)[11]
        == 'r' && layer_suffix(0)[13] == 'o');
    reveal_strlit(".self_attn.q_proj.weight");
    assert(layer_suffix(1).len() == 24 && layer_suffix(1)[0] == '.' && layer_suffix(1)[5] == '_' && layer_suffix(1)[11]
        == 'q' && layer_suffix(1)[13] == 'p');
    reveal_strlit(".self_attn.k_proj.weight");
    assert(layer_suffix(2).len() == 24 && layer_suffix(2)[0] == '.' && layer_suffix(2)[5] == '_' && layer_suffix(2)[11]
        == 'k' && layer_suffix(2)[13] == 'p');
    reveal_strlit(".self_attn.v_proj.weight");
    assert(layer_suffix(3).len() == 24 && layer_suffix(3)[0] == '.' && layer_suffix(3)[5] == '_' && layer_suffix(3)[11]
        == 'v' && layer_suffix(3)[13] == 'p');
    reveal_strlit(".self_attn.o_proj.weight");
    assert(layer_suffix(4).len() == 24 && layer_suffix(4)[0] == '.' && layer_suffix(4)[5] == '_' && layer_suffix(4)[11]
        == 'o' && layer_suffix(4)[13] == 'p');
    reveal_strlit(".self_attn.q_norm.weight");
    assert(layer_suffix(5).len() == 24 && layer_suffix(5)[0] == '.' && layer_suffix(5)[5] == '_' && layer_suffix(5)[11]
        == 'q' && layer_suffix(5)[13] == 'n');
    reveal_strlit(".self_attn.k_norm.weight");
    assert(layer_suffix(6).len() == 24 && layer_suffix(6)[0] == '.' && layer_suffix(6)[5] == '_' && layer_suffix(6)[11]
        == 'k' && layer_suffix(6)[13] == 'n');
    reveal_strlit(".post_attention_layernorm.weight");
    assert(layer_suffix(7).len() == 32 && layer_suffix(7)[0] == '.' && layer_suffix(7)[5] == '_' && layer_suffix(7)[11]
        == 't' && layer_suffix(7)[13] == 'o');
    reveal_strlit(".mlp.gate_proj.weight");
    assert(layer_suffix(8).len() == 21 && layer_suffix(8)[0] == '.' && layer_suffix(8)[5] == 'g' && layer_suffix(8)[11]
        == 'r' && layer_suffix(8)[13] == 'j');
    reveal_strlit(".mlp.up_proj.weight");
    assert(layer_suffix(9).len() == 19 && layer_suffix(9)[0] == '.' && layer_suffix(9)[5] == 'u' && layer_suffix(9)[11]
        == 'j' && layer_suffix(9)[13] == 'w');
    reveal_strlit(".mlp.down_proj.weight");
    assert(layer_suffix(10).len() == 21 && layer_suffix(10)[0] == '.' && layer_suffix(10)[5] == 'd' && layer_suffix(10)[11]
        == 'r' && layer_suffix(10)[13] == 'j');
    let a = layer_name(n1, j1);
    let b = layer_name(n2, j2);
    if a == b {
        assert(p.len() == 13);
        if d1.len() == d2.len() {
            assert(a.subrange(13, 13 + d1.len() as int) =~= d1);
            assert(b.subrange(13, 13 + d2.len() as int) =~= d2);
            lemma_decimal_injective(n1, n2);
            assert(a.subrange(13 + d1.len() as int, a.len() as int) =~= s1);
            assert(b.subrange(13 + d2.len() as int, b.len() as int) =~= s2);
            lemma_suffix_distinct(j1, j2);
        } else if d1.len() < d2.len() {
            assert(a[13 + d1.len() as int] == s1[0]);
            assert(b[13 + d1.len() as int] == d2[d1.len() as int]);
        } else {
            assert(b[13 + d2.len() as int] == s2[0]);
            assert(a[13 + d2.len() as int] == d1[d2.len() as int]);
        }
    }
}

/// The names of the tensors a configuration asks for are distinct.
pub(crate) proof fn lemma_expected_distinct(c: ConfigModel)
    ensures
        forall|i: int, j: int|
            0 <= i < j < expected_tensors(c).len() ==> #[trigger] expected_tensors(c)[i].0
                != #[trigger] expected_tensors(c)[j].0,
{
    let exp = expected_tensors(c);
    let count = c.num_hidden_layers as int;
    reveal_strlit("model.layers.");
    reveal_strlit("model.embed_tokens.weight");
    reveal_strlit("model.norm.weight");
    let e = "model.embed_tokens.weight"@;
    let m = "model.norm.weight"@;
    assert(e[6] == 'e' && m[6] == 'n');
    assert forall|i: int, j: int| 0 <= i < j < exp.len() implies #[trigger] exp[i].0 != #[trigger] exp[j].0 by {
        if j < 11 * count {
            assert(i / 11 != j / 11 || i % 11 != j % 11) by (nonlinear_arith)
                requires
                    0 <= i < j,
            ;
            assert(0 <= i / 11 && 0 <= j / 11 && 0 <= i % 11 < 11 && 0 <= j % 11 < 11) by (nonlinear_arith)
                requires
                    0 <= i < j,
            ;
            lemma_layer_names_distinct((i / 11) as nat, i % 11, (j / 11) as nat, j % 11);
        } else if i < 11 * count {
            assert(0 <= i / 11 && 0 <= i % 11 < 11) by (nonlinear_arith)
                requires
                    0 <= i,
            ;
            let a = layer_name((i / 11) as nat, i % 11);
            assert(a[6] == 'l');
            assert(exp[j].0[6] == 'e' || exp[j].0[6] == 'n');
        } else {
            assert(exp[i].0 == e && exp[j].0 == m);
        }
    }
}

/// Taking the expected tensors from the `k`th on succeeds when their names
/// are distinct and the map holds exactly those names, each with the shape
/// expected of it.
proof fn lemma_take_all_complete(
    exp: Seq<(Seq<char>, Seq<usize>)>,
    m: Map<Seq<char>, (Seq<usize>, Seq<u16>)>,
    k: int,
    got: Seq<Seq<u16>>,
)
    requires
        0 <= k <= exp.len(),
        forall|i: int, j: int| k <= i < j < exp.len() ==> #[trigger] exp[i].0 != #[trigger] exp[j].0,
        forall|x: Seq<char>| #[trigger]
            m.contains_key(x) <==> exists|i: int| k <= i < exp.len() && exp[i].0 == x,
        forall|i: int| k <= i < exp.len() ==> #[trigger] m[exp[i].0].0 == exp[i].1,
    ensures
        spec_take_all(exp, m, k, got) is Ok,
    decreases exp.len() - k,
{
    if k == exp.len() {
        assert(m.dom() =~= Set::empty()) by {
            assert forall|x: Seq<char>| !m.dom().contains(x) by {
                if m.contains_key(x) {
                    let i = choose|i: int| k <= i < exp.len() && exp[i].0 == x;
                }
            }
        }
    } else {
        let name = exp[k].0;
        assert(m.contains_key(name));
        let rest = m.remove(name);
        assert forall|x: Seq<char>| #[trigger]
            rest.contains_key(x) <==> exists|i: int| k + 1 <= i < exp.len() && exp[i].0 == x by {
            if rest.contains_key(x) {
                let i = choose|i: int| k <= i < exp.len() && exp[i].0 == x;
                assert(i != k);
            }
            if exists|i: int| k + 1 <= i < exp.len() && exp[i].0 == x {
                let i = choose|i: int| k + 1 <= i < exp.len() && exp[i].0 == x;
                assert(exp[k].0 != exp[i].0);
                assert(m.contains_key(x));
            }
        }
        assert forall|i: int| k + 1 <= i < exp.len() implies #[trigger] rest[exp[i].0].0 == exp[i].1 by {
            assert(exp[k].0 != exp[i].0);
        }
        lemma_take_all_complete(exp, rest, k + 1, got.push(m[name].1));
    }
}

/// What a whole load gathers: the members `ms` of the index's weight map,
/// the shard files `files` in the order they are read, and for each file
/// the places and data of its shard.
pub open spec fn spec_gather(
    c: ConfigModel,
    ms: Seq<(Seq<char>, JsonModel)>,
    files: Seq<Seq<char>>,
    shards: Map<Seq<char>, (Map<Seq<char>, Place>, Seq<u8>)>,
) -> Result<Seq<Seq<u16>>, ModelErrorModel> {
    match spec_collect_files(ms, files, shards, Map::empty(), 0) {
        Ok(m) => spec_take_all(expected_tensors(c), m, 0, Seq::empty()),
        Err(e) => Err(e),
    }
}

/// The configuration asks for a tensor of this name.
pub open spec fn asks_for(c: ConfigModel, name: Seq<char>) -> bool {
    exists|j: int| 0 <= j < expected_tensors(c).len() && #[trigger] expected_tensors(c)[j].0 == name
}

/// The weight map and the shards fit the configuration: each name that the
/// map places in a file is a tensor of that file's shard; each tensor that
/// the configuration asks for is placed, and where it is finally taken from
/// it has the shape asked for; and each placed name is one that the
/// configuration asks for.
pub open spec fn gather_conditions(
    c: ConfigModel,
    ms: Seq<(Seq<char>, JsonModel)>,
    files: Seq<Seq<char>>,
    shards: Map<Seq<char>, (Map<Seq<char>, Place>, Seq<u8>)>,
) -> bool {
    let exp = expected_tensors(c);
    &&& forall|i: int|
        0 <= i < ms.len() && ms[i].1 is String ==> shards[ms[i].1->String_0].0.contains_key(
            #[trigger] ms[i].0,
        )
    &&& forall|j: int|
        0 <= j < exp.len() ==> (#[trigger] final_place(ms, files, shards, exp[j].0, 0) matches Some(p)
            && p.0 == exp[j].1)
    &&& forall|i: int| 0 <= i < ms.len() && ms[i].1 is String ==> #[trigger] asks_for(c, ms[i].0)
}

/// A member's file is one of the files.
proof fn lemma_member_file(ms: Seq<(Seq<char>, JsonModel)>, files: Seq<Seq<char>>)
    requires
        files.to_set() == string_values(ms, ms.len() as int),
    ensures
        forall|i: int|
            0 <= i < ms.len() && ms[i].1 is String ==> exists|j: int|
                0 <= j < files.len() && #[trigger] files[j] == ms[i].1->String_0,
{
    assert forall|i: int| 0 <= i < ms.len() && ms[i].1 is String implies exists|j: int|
        0 <= j < files.len() && #[trigger] files[j] == ms[i].1->String_0 by {
        let f = ms[i].1->String_0;
        assert(ms[i].1 == JsonModel::String(f));
        assert(string_values(ms, ms.len() as int).contains(f));
        assert(files.to_set().contains(f));
    }
}

/// Collecting all the files succeeds exactly when each member placed in a
/// file names a tensor of its shard; it then gives what the files add.
proof fn lemma_collect_all(
    ms: Seq<(Seq<char>, JsonModel)>,
    files: Seq<Seq<char>>,
    shards: Map<Seq<char>, (Map<Seq<char>, Place>, Seq<u8>)>,
)
    requires
        files.to_set() == string_values(ms, ms.len() as int),
    ensures
        spec_collect_files(ms, files, shards, Map::empty(), 0) is Ok <==> forall|i: int|
            0 <= i < ms.len() && ms[i].1 is String ==> shards[ms[i].1->String_0].0.contains_key(
                #[trigger] ms[i].0,
            ),
        spec_collect_files(ms, files, shards, Map::empty(), 0) is Ok ==> forall|j: int|
            0 <= j < files.len() ==> all_placed(ms, #[trigger] files[j], shards[files[j]].0, 0),
        spec_collect_files(ms, files, shards, Map::empty(), 0) matches Ok(m) ==> m == gathered(
            ms,
            files,
            shards,
            0,
        ),
{
    let empty = Map::<Seq<char>, (Seq<usize>, Seq<u16>)>::empty();
    lemma_collect_files(ms, files, shards, empty, 0);
    lemma_member_file(ms, files);
    assert(empty.union_prefer_right(gathered(ms, files, shards, 0)) =~= gathered(ms, files, shards, 0));
    let placed = forall|i: int|
        0 <= i < ms.len() && ms[i].1 is String ==> shards[ms[i].1->String_0].0.contains_key(
            #[trigger] ms[i].0,
        );
    if placed {
        assert forall|j: int| 0 <= j < files.len() implies all_placed(ms, #[trigger] files[j], shards[files[j]].0, 0) by {
            assert forall|i: int| 0 <= i < ms.len() && ms[i].1 == JsonModel::String(files[j]) implies shards[files[j]].0.contains_key(
                #[trigger] ms[i].0,
            ) by {
                assert(ms[i].1 is String);
            }
        }
    }
    if spec_collect_files(ms, files, shards, empty, 0) is Ok {
        assert forall|i: int| 0 <= i < ms.len() && ms[i].1 is String implies shards[ms[i].1->String_0].0.contains_key(
            #[trigger] ms[i].0,
        ) by {
            let j = choose|j: int| 0 <= j < files.len() && #[trigger] files[j] == ms[i].1->String_0;
            assert(all_placed(ms, files[j], shards[files[j]].0, 0));
            assert(ms[i].1 == JsonModel::String(files[j]));
        }
    }
}

/// Law: once every shard file that a weight map names has loaded, a whole
/// load, which reads the files in order and then takes out the tensors the
/// configuration asks for, succeeds exactly when the weight map and the
/// shards fit the configuration.
pub proof fn law_gather_ok(
    c: ConfigModel,
    ms: Seq<(Seq<char>, JsonModel)>,
    files: Seq<Seq<char>>,
    shards: Map<Seq<char>, (Map<Seq<char>, Place>, Seq<u8>)>,
)
    requires
        files.to_set() == string_values(ms, ms.len() as int),
    ensures
        spec_gather(c, ms, files, shards) is Ok <==> gather_conditions(c, ms, files, shards),
{
    let exp = expected_tensors(c);
    lemma_collect_all(ms, files, shards);
    lemma_member_file(ms, files);
    lemma_expected_distinct(c);
    if let Ok(m) = spec_collect_files(ms, files, shards, Map::empty(), 0) {
        lemma_gathered(ms, files, shards, 0);
        assert(m == gathered(ms, files, shards, 0));
        // A placed member's name is gathered.
        assert forall|i: int| 0 <= i < ms.len() && ms[i].1 is String implies #[trigger] m.contains_key(
            ms[i].0,
        ) by {
            let j = choose|j: int| 0 <= j < files.len() && #[trigger] files[j] == ms[i].1->String_0;
            assert(ms[i].1 == JsonModel::String(files[j]));
            assert(placed_in(ms, files[j], ms[i].0));
        }
        // A gathered name is a placed member's name.
        assert forall|x: Seq<char>| #[trigger] m.contains_key(x) implies exists|i: int|
            0 <= i < ms.len() && ms[i].0 == x && ms[i].1 is String by {
            let j = choose|j: int| 0 <= j < files.len() && placed_in(ms, #[trigger] files[j], x);
            let i = choose|i: int| 0 <= i < ms.len() && #[trigger] ms[i].0 == x && ms[i].1 == JsonModel::String(files[j]);
            assert(ms[i].1 is String);
        }
        if spec_take_all(exp, m, 0, Seq::empty()) is Ok {
            law_assemble_exact(c, m);
            assert forall|j: int| 0 <= j < exp.len() implies (#[trigger] final_place(
                ms,
                files,
                shards,
                exp[j].0,
                0,
            ) matches Some(p) && p.0 == exp[j].1) by {
                assert(m.contains_key(exp[j].0));
            }
            assert forall|i: int| 0 <= i < ms.len() && ms[i].1 is String implies #[trigger] asks_for(
                c,
                ms[i].0,
            ) by {
                assert(m.contains_key(ms[i].0));
                let j = choose|j: int| 0 <= j < exp.len() && exp[j].0 == ms[i].0;
                assert(expected_tensors(c)[j].0 == ms[i].0);
            }
        }
        if gather_conditions(c, ms, files, shards) {
            assert forall|x: Seq<char>| #[trigger]
                m.contains_key(x) <==> exists|j: int| 0 <= j < exp.len() && exp[j].0 == x by {
                if m.contains_key(x) {
                    let i = choose|i: int| 0 <= i < ms.len() && ms[i].0 == x && ms[i].1 is String;
                    assert(asks_for(c, ms[i].0));
                    let j = choose|j: int|
                        0 <= j < expected_tensors(c).len() && #[trigger] expected_tensors(c)[j].0 == ms[i].0;
                }
                if exists|j: int| 0 <= j < exp.len() && exp[j].0 == x {
                    let j = choose|j: int| 0 <= j < exp.len() && exp[j].0 == x;
                    assert(final_place(ms, files, shards, exp[j].0, 0) is Some);
                }
            }
            assert forall|j: int| 0 <= j < exp.len() implies #[trigger] m[exp[j].0].0 == exp[j].1 by {
                let x = exp[j].0;
                assert(final_place(ms, files, shards, x, 0) matches Some(p) && p.0 == exp[j].1);
                assert(gathered(ms, files, shards, 0).contains_key(x));
                assert(gathered(ms, files, shards, 0)[x].0 == final_place(ms, files, shards, x, 0)->Some_0.0);
            }
            lemma_take_all_complete(exp, m, 0, Seq::empty());
        }
    }
}

/// Law: when a whole load succeeds out of shards that fit, as every shard
/// that reads does, each tensor it takes holds as many values as the shape
/// the configuration asks of it.
pub proof fn law_gather_lengths(
    c: ConfigModel,
    ms: Seq<(Seq<char>, JsonModel)>,
    files: Seq<Seq<char>>,
    shards: Map<Seq<char>, (Map<Seq<char>, Place>, Seq<u8>)>,
)
    requires
        files.to_set() == string_values(ms, ms.len() as int),
        shards_fit(files, shards),
    ensures
        spec_gather(c, ms, files, shards) matches Ok(ts) ==> ts.len() == expected_tensors(c).len()
            && forall|i: int|
            0 <= i < ts.len() ==> (checked_product(#[trigger] expected_tensors(c)[i].1) matches Some(
                n,
            ) && n == ts[i].len()),
{
    lemma_collect_all(ms, files, shards);
    if let Ok(m) = spec_collect_files(ms, files, shards, Map::empty(), 0) {
        lemma_gathered(ms, files, shards, 0);
        law_assembled_lengths(c, m);
    }
}

} // verus!
