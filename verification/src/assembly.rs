//! Data assembly: from payload lines to the validated game model.
//!
//! The first line declares five counts (machines, beacons, recipes,
//! items, fluids); the following lines are consumed positionally in
//! that section order, items carrying their modules.  Schema
//! validation is strict: duplicate IDs within a category are a
//! `SchemaMismatch`, a module limitation naming an unknown recipe is a
//! `ReferenceError`, and an unknown kind token is an `UnknownVariant`.

use vstd::prelude::*;
use crate::decode::{
    read_allowed_effects, read_int, read_line, read_metadata, read_ratio, read_str, read_usize,
    usize_shape_ok, AllowedEffects, Lines,
};
use crate::digits::{
    digits_of_bytes, digits_value, find_byte_from, lemma_find_props, lemma_find_unique,
    parse_digits_range, spec_find,
};
use crate::model::{
    distinct_syms, Beacon, BeaconID, Fluid, FluidID, GameData, Ingredient, IngredientResource,
    Item, ItemID, Machine, MachineID, Module, Product, ProductAmount, ProductResource, Recipe,
    RecipeID,
};
use crate::symbols::SymbolTable;
use crate::Error;

verus! {

//
// The header line.
//

/// The five declared counts, split at four unit separators; the last
/// part must hold no further separator.
pub open spec fn spec_header(line: Seq<u8>) -> Option<(int, int, int, int, int)> {
    let u1 = spec_find(line, 31);
    if u1 == -1 {
        Option::None
    } else {
        let r1 = line.subrange(u1 + 1, line.len() as int);
        let u2 = spec_find(r1, 31);
        if u2 == -1 {
            Option::None
        } else {
            let r2 = r1.subrange(u2 + 1, r1.len() as int);
            let u3 = spec_find(r2, 31);
            if u3 == -1 {
                Option::None
            } else {
                let r3 = r2.subrange(u3 + 1, r2.len() as int);
                let u4 = spec_find(r3, 31);
                if u4 == -1 {
                    Option::None
                } else {
                    let r4 = r3.subrange(u4 + 1, r3.len() as int);
                    if spec_find(r4, 31) != -1 {
                        Option::None
                    } else {
                        let p1 = line.subrange(0, u1);
                        let p2 = r1.subrange(0, u2);
                        let p3 = r2.subrange(0, u3);
                        let p4 = r3.subrange(0, u4);
                        if usize_shape_ok(p1) && usize_shape_ok(p2) && usize_shape_ok(p3)
                            && usize_shape_ok(p4) && usize_shape_ok(r4) {
                            Option::Some(
                                (
                                    digits_value(digits_of_bytes(p1)),
                                    digits_value(digits_of_bytes(p2)),
                                    digits_value(digits_of_bytes(p3)),
                                    digits_value(digits_of_bytes(p4)),
                                    digits_value(digits_of_bytes(r4)),
                                ),
                            )
                        } else {
                            Option::None
                        }
                    }
                }
            }
        }
    }
}

/// Parses one part of the header: the digits of `line[from..to]` as a
/// machine-sized count.
fn parse_count(line: &Vec<u8>, from: usize, to: usize) -> (r: Option<usize>)
    requires
        from <= to <= line@.len(),
    ensures
        match r {
            Option::Some(v) => usize_shape_ok(line@.subrange(from as int, to as int)) && v
                == digits_value(digits_of_bytes(line@.subrange(from as int, to as int))),
            Option::None => !usize_shape_ok(line@.subrange(from as int, to as int))
                || digits_value(digits_of_bytes(line@.subrange(from as int, to as int)))
                > usize::MAX,
        },
{
    if from == to {
        return Option::None;
    }
    let digits = match parse_digits_range(line, from, to) {
        Option::Some(d) => d,
        Option::None => {
            return Option::None;
        },
    };
    let dn = digits.len();
    let mut acc: u64 = 0;
    let mut i: usize = 0;
    proof {
        assert(digits@.subrange(0, 0) =~= Seq::<u8>::empty());
        assert(digits_value(Seq::<u8>::empty()) == 0);
    }
    while i < dn
        invariant
            i <= dn,
            dn == digits@.len(),
            crate::digits::digits_wf(digits@),
            acc == digits_value(digits@.subrange(0, i as int)),
            acc <= usize::MAX,
            digits_value(digits@) == digits_value(
                digits_of_bytes(line@.subrange(from as int, to as int)),
            ),
        decreases dn - i,
    {
        let d_i = digits[i];
        assert(d_i < 10);
        let wide: u128 = (acc as u128) * 10 + (d_i as u128);
        proof {
            let prefix = digits@.subrange(0, i + 1);
            assert(prefix.drop_last() =~= digits@.subrange(0, i as int));
            assert(prefix.last() == digits@[i as int]);
            assert(wide == digits_value(prefix));
        }
        if wide > (usize::MAX as u128) {
            proof {
                crate::digits::lemma_digits_prefix_le(digits@, i + 1);
            }
            return Option::None;
        }
        acc = wide as u64;
        i += 1;
    }
    proof {
        assert(digits@.subrange(0, dn as int) =~= digits@);
    }
    Option::Some(acc as usize)
}

/// Reads the header line: five counts separated by the unit-separator
/// byte.  A missing separator or part is a `MalformedRecord`; a part
/// that is not a machine-sized count is a `NumericParseError`.
#[verifier::rlimit(100)]
pub fn read_header(p: &mut Lines) -> (r: Result<(usize, usize, usize, usize, usize), Error>)
    requires
        old(p).wf(),
    ensures
        final(p).wf(),
        final(p).all() == old(p).all(),
        old(p).cursor() <= final(p).cursor(),
        final(p).remaining() >= old(p).remaining() - 1,
        match r {
            Ok(h) => old(p).remaining() >= 1 && final(p).cursor() == old(p).cursor() + 1
                && spec_header(old(p).all()[old(p).cursor()]) == Option::Some(
                (h.0 as int, h.1 as int, h.2 as int, h.3 as int, h.4 as int),
            ),
            Err(e) => {
                &&& (old(p).remaining() == 0 ==> e == Error::MalformedRecord)
                &&& (old(p).remaining() >= 1 ==> ({
                    let hdr = spec_header(old(p).all()[old(p).cursor()]);
                    match hdr {
                        // A missing separator is malformed; a part that
                        // is not all digits is a numeric fault.
                        Option::None => e == Error::MalformedRecord || e
                            == Error::NumericParseError,
                        // A well-shaped header fails only when one of
                        // its declared counts does not fit the machine.
                        Option::Some(h) => e == Error::NumericParseError && (h.0 > usize::MAX
                            || h.1 > usize::MAX || h.2 > usize::MAX || h.3 > usize::MAX || h.4
                            > usize::MAX),
                    }
                }))
            },
        },
{
    let line = match read_line(p) {
        Ok(v) => v,
        Err(e) => {
            return Err(e);
        },
    };
    let n = line.len();
    let u1 = match find_byte_from(&line, 0, 31) {
        Option::Some(k) => k,
        Option::None => {
            proof {
                lemma_find_props(line@, 31);
                if spec_find(line@, 31) != -1 {
                    assert(line@[spec_find(line@, 31)] == 31);
                }
            }
            return Err(Error::MalformedRecord);
        },
    };
    proof {
        lemma_find_unique(line@, 31, u1 as int);
    }
    let ghost r1 = line@.subrange(u1 + 1, n as int);
    let u2 = match find_byte_from(&line, u1 + 1, 31) {
        Option::Some(k) => k,
        Option::None => {
            proof {
                lemma_find_props(r1, 31);
                if spec_find(r1, 31) != -1 {
                    let w = spec_find(r1, 31);
                    assert(r1[w] == line@[u1 + 1 + w]);
                    assert(false);
                }
            }
            return Err(Error::MalformedRecord);
        },
    };
    proof {
        assert(r1[u2 - u1 - 1] == line@[u2 as int]);
        assert forall|i: int| 0 <= i < u2 - u1 - 1 implies r1[i] != 31 by {
            assert(r1[i] == line@[u1 + 1 + i]);
        }
        lemma_find_unique(r1, 31, u2 - u1 - 1);
    }
    let ghost r2 = r1.subrange(u2 - u1, r1.len() as int);
    let u3 = match find_byte_from(&line, u2 + 1, 31) {
        Option::Some(k) => k,
        Option::None => {
            proof {
                assert(r2 =~= line@.subrange(u2 + 1, n as int));
                lemma_find_props(r2, 31);
                if spec_find(r2, 31) != -1 {
                    let w = spec_find(r2, 31);
                    assert(r2[w] == line@[u2 + 1 + w]);
                    assert(false);
                }
            }
            return Err(Error::MalformedRecord);
        },
    };
    proof {
        assert(r2 =~= line@.subrange(u2 + 1, n as int));
        assert(r2[u3 - u2 - 1] == line@[u3 as int]);
        assert forall|i: int| 0 <= i < u3 - u2 - 1 implies r2[i] != 31 by {
            assert(r2[i] == line@[u2 + 1 + i]);
        }
        lemma_find_unique(r2, 31, u3 - u2 - 1);
    }
    let ghost r3 = r2.subrange(u3 - u2, r2.len() as int);
    let u4 = match find_byte_from(&line, u3 + 1, 31) {
        Option::Some(k) => k,
        Option::None => {
            proof {
                assert(r3 =~= line@.subrange(u3 + 1, n as int));
                lemma_find_props(r3, 31);
                if spec_find(r3, 31) != -1 {
                    let w = spec_find(r3, 31);
                    assert(r3[w] == line@[u3 + 1 + w]);
                    assert(false);
                }
            }
            return Err(Error::MalformedRecord);
        },
    };
    proof {
        assert(r3 =~= line@.subrange(u3 + 1, n as int));
        assert(r3[u4 - u3 - 1] == line@[u4 as int]);
        assert forall|i: int| 0 <= i < u4 - u3 - 1 implies r3[i] != 31 by {
            assert(r3[i] == line@[u3 + 1 + i]);
        }
        lemma_find_unique(r3, 31, u4 - u3 - 1);
    }
    let ghost r4 = r3.subrange(u4 - u3, r3.len() as int);
    match find_byte_from(&line, u4 + 1, 31) {
        Option::Some(w) => {
            proof {
                assert(r4 =~= line@.subrange(u4 + 1, n as int));
                lemma_find_props(r4, 31);
                if spec_find(r4, 31) == -1 {
                    assert(r4[w - u4 - 1] == line@[w as int]);
                }
            }
            return Err(Error::MalformedRecord);
        },
        Option::None => {
            proof {
                assert(r4 =~= line@.subrange(u4 + 1, n as int));
                lemma_find_props(r4, 31);
                if spec_find(r4, 31) != -1 {
                    let w = spec_find(r4, 31);
                    assert(r4[w] == line@[u4 + 1 + w]);
                    assert(false);
                }
            }
        },
    }
    let c1 = match parse_count(&line, 0, u1) {
        Option::Some(v) => v,
        Option::None => {
            return Err(Error::NumericParseError);
        },
    };
    let c2 = match parse_count(&line, u1 + 1, u2) {
        Option::Some(v) => v,
        Option::None => {
            proof {
                assert(line@.subrange(u1 + 1, u2 as int) =~= r1.subrange(0, u2 - u1 - 1));
            }
            return Err(Error::NumericParseError);
        },
    };
    let c3 = match parse_count(&line, u2 + 1, u3) {
        Option::Some(v) => v,
        Option::None => {
            proof {
                assert(line@.subrange(u2 + 1, u3 as int) =~= r2.subrange(0, u3 - u2 - 1));
            }
            return Err(Error::NumericParseError);
        },
    };
    let c4 = match parse_count(&line, u3 + 1, u4) {
        Option::Some(v) => v,
        Option::None => {
            proof {
                assert(line@.subrange(u3 + 1, u4 as int) =~= r3.subrange(0, u4 - u3 - 1));
            }
            return Err(Error::NumericParseError);
        },
    };
    let c5 = match parse_count(&line, u4 + 1, n) {
        Option::Some(v) => v,
        Option::None => {
            proof {
                assert(line@.subrange(u4 + 1, n as int) =~= r4);
            }
            return Err(Error::NumericParseError);
        },
    };
    proof {
        assert(line@.subrange(u1 + 1, u2 as int) =~= r1.subrange(0, u2 - u1 - 1));
        assert(line@.subrange(u2 + 1, u3 as int) =~= r2.subrange(0, u3 - u2 - 1));
        assert(line@.subrange(u3 + 1, u4 as int) =~= r3.subrange(0, u4 - u3 - 1));
        assert(line@.subrange(u4 + 1, n as int) =~= r4);
    }
    Ok((c1, c2, c3, c4, c5))
}

//
// Module-effect filtering.
//

/// A module may sit in a machine or beacon exactly when, on every
/// effect channel, either the host allows the channel or the module's
/// modifier there is exactly zero.
pub open spec fn module_allowed(m: Module, e: AllowedEffects) -> bool {
    &&& (e.energy || m.modifier_energy.num_int() == 0)
    &&& (e.speed || m.modifier_speed.num_int() == 0)
    &&& (e.productivity || m.modifier_productivity.num_int() == 0)
    &&& (e.pollution || m.modifier_pollution.num_int() == 0)
}

/// A module with a nonzero modifier on a gated channel is simply
/// inapplicable there, never an error.
pub proof fn lemma_gated_channel_excludes(m: Module, e: AllowedEffects)
    requires
        m.modifier_productivity.num_int() != 0,
        !e.productivity,
    ensures
        !module_allowed(m, e),
{
}

/// A module with all-zero modifiers is supported by every host,
/// whatever its allowed-effect flags.
pub proof fn lemma_all_zero_always_allowed(m: Module, e: AllowedEffects)
    requires
        m.modifier_energy.num_int() == 0,
        m.modifier_speed.num_int() == 0,
        m.modifier_productivity.num_int() == 0,
        m.modifier_pollution.num_int() == 0,
    ensures
        module_allowed(m, e),
{
}

/// True when `id` is the ID of some module of the list that the
/// effect gates admit.
pub open spec fn came_from_allowed(modules: Seq<Module>, e: AllowedEffects, id: ItemID) -> bool {
    exists|i: int|
        #![trigger modules[i]]
        0 <= i < modules.len() && modules[i].id == id && module_allowed(modules[i], e)
}

/// A supported-module set is exactly the effect-gate filter of the
/// module list: a module's ID is in the set if and only if the gates
/// admit the module.
pub open spec fn supports_match(sup: Seq<ItemID>, modules: Seq<Module>, e: AllowedEffects) -> bool {
    forall|j: int|
        0 <= j < modules.len() ==> (sup.contains((#[trigger] modules[j]).id) <==> module_allowed(
            modules[j],
            e,
        ))
}

/// The effects line at `pos` is well shaped and denotes exactly the
/// gates `e`.
pub open spec fn gates_from(ls: Seq<Seq<u8>>, pos: int, e: AllowedEffects) -> bool {
    crate::decode::effects_shape_ok(ls[pos]) && e == crate::decode::spec_effects(ls[pos])
}

/// `sup` is the effect-gate filter of `modules` under the gates that
/// the (well-shaped) effects line at `pos` denotes.
pub open spec fn supports_from_line(
    sup: Seq<ItemID>,
    modules: Seq<Module>,
    ls: Seq<Seq<u8>>,
    pos: int,
) -> bool {
    crate::decode::effects_shape_ok(ls[pos]) && supports_match(
        sup,
        modules,
        crate::decode::spec_effects(ls[pos]),
    )
}

/// The two directional facts of the filter, over a module list with
/// pairwise-distinct IDs, give the membership equivalence.
proof fn lemma_allowed_supports_match(modules: Seq<Module>, e: AllowedEffects, sup: Seq<ItemID>)
    requires
        forall|i: int|
            0 <= i < modules.len() && module_allowed(#[trigger] modules[i], e) ==> sup.contains(
                modules[i].id,
            ),
        forall|j: int| 0 <= j < sup.len() ==> came_from_allowed(modules, e, #[trigger] sup[j]),
        forall|k1: int, k2: int|
            #![trigger modules[k1], modules[k2]]
            0 <= k1 < k2 < modules.len() ==> modules[k1].id.0 != modules[k2].id.0,
    ensures
        supports_match(sup, modules, e),
{
    assert forall|j: int|
        0 <= j < modules.len() implies (sup.contains((#[trigger] modules[j]).id) <==> module_allowed(
        modules[j],
        e,
    )) by {
        if sup.contains(modules[j].id) {
            let t = choose|t: int| 0 <= t < sup.len() && sup[t] == modules[j].id;
            assert(came_from_allowed(modules, e, sup[t]));
            let i = choose|i: int|
                #![trigger modules[i]]
                0 <= i < modules.len() && modules[i].id == sup[t] && module_allowed(modules[i], e);
            if i < j {
                assert(modules[i].id.0 != modules[j].id.0);
            } else if j < i {
                assert(modules[j].id.0 != modules[i].id.0);
            }
            assert(i == j);
        }
    }
}

/// All modules a host with the given effect gates supports, in module
/// order.
#[verifier::rlimit(100)]
pub fn get_allowed_modules(modules: &Vec<Module>, allowed_effects: &AllowedEffects) -> (r: Vec<
    ItemID,
>)
    requires
        forall|i: int|
            0 <= i < modules@.len() ==> (#[trigger] modules@[i]).modifier_energy.wf()
                && modules@[i].modifier_speed.wf() && modules@[i].modifier_productivity.wf()
                && modules@[i].modifier_pollution.wf(),
    ensures
        forall|i: int|
            0 <= i < modules@.len() && module_allowed(#[trigger] modules@[i], *allowed_effects)
                ==> r@.contains(modules@[i].id),
        forall|j: int|
            0 <= j < r@.len() ==> came_from_allowed(modules@, *allowed_effects, #[trigger] r@[j]),
        distinct_syms(modules@.map_values(|m: Module| m.id.0)) ==> distinct_syms(
            r@.map_values(|id: ItemID| id.0),
        ),
{
    let n = modules.len();
    let mut r: Vec<ItemID> = Vec::new();
    // The source index of every kept module, in ascending order.
    let ghost mut srcs: Seq<int> = Seq::empty();
    let mut i: usize = 0;
    while i < n
        invariant
            i <= n,
            n == modules@.len(),
            forall|k: int|
                0 <= k < modules@.len() ==> (#[trigger] modules@[k]).modifier_energy.wf()
                    && modules@[k].modifier_speed.wf() && modules@[k].modifier_productivity.wf()
                    && modules@[k].modifier_pollution.wf(),
            srcs.len() == r@.len(),
            forall|j: int|
                #![trigger srcs[j]]
                0 <= j < srcs.len() ==> 0 <= srcs[j] < i && modules@[srcs[j]].id == r@[j]
                    && module_allowed(modules@[srcs[j]], *allowed_effects),
            forall|j1: int, j2: int|
                #![trigger srcs[j1], srcs[j2]]
                0 <= j1 < j2 < srcs.len() ==> srcs[j1] < srcs[j2],
            forall|k: int|
                0 <= k < i && module_allowed(#[trigger] modules@[k], *allowed_effects)
                    ==> r@.contains(modules@[k].id),
        decreases n - i,
    {
        let m = &modules[i];
        let ghost r_old = r@;
        let applies = (allowed_effects.energy || m.modifier_energy.is_zero())
            && (allowed_effects.speed || m.modifier_speed.is_zero()) && (
        allowed_effects.productivity || m.modifier_productivity.is_zero()) && (
        allowed_effects.pollution || m.modifier_pollution.is_zero());
        if applies {
            r.push(m.id);
            proof {
                srcs = srcs.push(i as int);
                assert(r@[r@.len() - 1] == modules@[i as int].id);
                assert(module_allowed(modules@[i as int], *allowed_effects));
                assert forall|k: int|
                    0 <= k < i + 1 && module_allowed(
                        #[trigger] modules@[k],
                        *allowed_effects,
                    ) implies r@.contains(modules@[k].id) by {
                    if k < i {
                        assert(r_old.contains(modules@[k].id));
                        let j = choose|j: int|
                            0 <= j < r_old.len() && r_old[j] == modules@[k].id;
                        assert(r@[j] == modules@[k].id);
                    } else {
                        assert(r@[r@.len() - 1] == modules@[k].id);
                    }
                }
            }
        } else {
            proof {
                assert(!module_allowed(modules@[i as int], *allowed_effects));
                assert forall|k: int|
                    0 <= k < i + 1 && module_allowed(
                        #[trigger] modules@[k],
                        *allowed_effects,
                    ) implies r@.contains(modules@[k].id) by {
                    assert(k < i);
                }
            }
        }
        i += 1;
    }
    proof {
        assert forall|j: int|
            0 <= j < r@.len() implies came_from_allowed(
            modules@,
            *allowed_effects,
            #[trigger] r@[j],
        ) by {
            let k = srcs[j];
            assert(0 <= k < modules@.len() && modules@[k].id == r@[j] && module_allowed(
                modules@[k],
                *allowed_effects,
            ));
        }
        if distinct_syms(modules@.map_values(|m: Module| m.id.0)) {
            let rs = r@.map_values(|id: ItemID| id.0);
            let ms = modules@.map_values(|m: Module| m.id.0);
            assert forall|j1: int, j2: int|
                #![trigger rs[j1], rs[j2]]
                0 <= j1 < j2 < rs.len() implies rs[j1] != rs[j2] by {
                let k1 = srcs[j1];
                let k2 = srcs[j2];
                assert(k1 < k2);
                assert(ms[k1] == modules@[k1].id.0);
                assert(ms[k2] == modules@[k2].id.0);
                assert(ms[k1] != ms[k2]);
                assert(rs[j1] == r@[j1].0 && rs[j2] == r@[j2].0);
            }
            assert(distinct_syms(rs));
        }
    }
    r
}

//
// Entity readers.
//

/// True when some listed module carries `id`.
pub open spec fn has_module_id(modules: Seq<Module>, id: ItemID) -> bool {
    exists|i: int| #![trigger modules[i]] 0 <= i < modules.len() && modules[i].id == id
}

/// True when some recipe of the list carries `id`.
pub open spec fn has_recipe_id(recipes: Seq<Recipe>, id: RecipeID) -> bool {
    exists|i: int| #![trigger recipes[i]] 0 <= i < recipes.len() && recipes[i].id == id
}

/// Whether `v` already holds `id`.
fn contains_item_id(v: &Vec<ItemID>, id: ItemID) -> (r: bool)
    ensures
        r == v@.contains(id),
{
    let n = v.len();
    let mut i: usize = 0;
    while i < n
        invariant
            i <= n,
            n == v@.len(),
            forall|j: int| 0 <= j < i ==> v@[j] != id,
        decreases n - i,
    {
        if v[i].0 .0 == id.0 .0 {
            proof {
                assert(v@[i as int] == id);
            }
            return true;
        }
        i += 1;
    }
    proof {
        if v@.contains(id) {
            let j = choose|j: int| 0 <= j < v@.len() && v@[j] == id;
            assert(v@[j] != id);
        }
    }
    false
}

/// The position of the recipe carrying `id`, if any.
fn index_of_recipe(recipes: &Vec<Recipe>, id: RecipeID) -> (r: Option<usize>)
    ensures
        match r {
            Option::Some(j) => j < recipes@.len() && recipes@[j as int].id == id,
            Option::None => !has_recipe_id(recipes@, id),
        },
{
    let n = recipes.len();
    let mut i: usize = 0;
    while i < n
        invariant
            i <= n,
            n == recipes@.len(),
            forall|j: int| #![trigger recipes@[j]] 0 <= j < i ==> recipes@[j].id != id,
        decreases n - i,
    {
        if recipes[i].id.0 .0 == id.0 .0 {
            proof {
                assert(recipes@[i as int].id == id);
            }
            return Option::Some(i);
        }
        i += 1;
    }
    proof {
        if has_recipe_id(recipes@, id) {
            let j = choose|j: int|
                #![trigger recipes@[j]]
                0 <= j < recipes@.len() && recipes@[j].id == id;
            assert(recipes@[j].id != id);
        }
    }
    Option::None
}

/// Reads one machine record: ID, metadata, three performance ratios,
/// the module slot count, and the transient allowed-effect bits.
fn read_machine(p: &mut Lines, table: &mut SymbolTable) -> (r: Result<
    (Machine, AllowedEffects),
    Error,
>)
    requires
        old(p).wf(),
        old(table).wf(),
        old(table)@.len() + old(p).remaining() <= u32::MAX,
    ensures
        final(p).wf(),
        final(p).all() == old(p).all(),
        old(p).cursor() <= final(p).cursor(),
        final(table).wf(),
        final(table)@.len() + final(p).remaining() <= old(table)@.len() + old(p).remaining(),
        forall|i: int| 0 <= i < old(table)@.len() ==> final(table)@[i] == old(table)@[i],
        old(table)@.len() <= final(table)@.len(),
        match r {
            Ok(me) => me.0.syms_ok(final(table)@.len() as int) && me.0.crafting_speed.wf()
                && me.0.energy_consumption.wf() && me.0.energy_drain.wf() && me.0.module_slots.wf()
                && me.0.metadata.wf() && (me.0.metadata.icon matches Option::None)
                && me.0.supported_modules@.len() == 0 && old(p).remaining() >= 8
                && final(p).cursor() == old(p).cursor() + 8 && ({
                // The eight consumed lines determine every field: the
                // interned ID, two metadata lines, three exact ratios,
                // the slot count, and the effect bits.
                let c = old(p).cursor();
                let ls = old(p).all();
                &&& me.0.id.0.idx() == crate::symbols::spec_intern(old(table)@, ls[c]).1
                &&& crate::approx::ratio_from_decimal_post(
                    ls[c + 3],
                    Result::Ok(me.0.crafting_speed),
                )
                &&& crate::approx::ratio_from_decimal_post(
                    ls[c + 4],
                    Result::Ok(me.0.energy_consumption),
                )
                &&& crate::approx::ratio_from_decimal_post(ls[c + 5], Result::Ok(me.0.energy_drain))
                &&& crate::numbers::int_shape_ok(ls[c + 6]) && me.0.module_slots.value()
                    == crate::numbers::spec_int_of(ls[c + 6])
                &&& crate::decode::effects_shape_ok(ls[c + 7]) && me.1
                    == crate::decode::spec_effects(ls[c + 7])
            }),
            // A machine record fails only on exhaustion or on a
            // malformed line of its own eight.
            Err(_) => ({
                let c = old(p).cursor();
                let ls = old(p).all();
                ||| old(p).remaining() < 8
                ||| crate::decode::spec_localised(ls[c + 1]) matches Option::None
                ||| crate::decode::spec_localised(ls[c + 2]) matches Option::None
                ||| !crate::approx::decimal_shape_ok(ls[c + 3])
                ||| !crate::approx::decimal_shape_ok(ls[c + 4])
                ||| !crate::approx::decimal_shape_ok(ls[c + 5])
                ||| !crate::numbers::int_shape_ok(ls[c + 6])
                ||| !crate::decode::effects_shape_ok(ls[c + 7])
            }),
        },
{
    let id = MachineID(
        match read_str(p, table) {
            Ok(v) => v,
            Err(e) => {
                return Err(e);
            },
        },
    );
    let metadata = match read_metadata(p, table) {
        Ok(v) => v,
        Err(e) => {
            return Err(e);
        },
    };
    let crafting_speed = match read_ratio(p) {
        Ok(v) => v,
        Err(e) => {
            return Err(e);
        },
    };
    let energy_consumption = match read_ratio(p) {
        Ok(v) => v,
        Err(e) => {
            return Err(e);
        },
    };
    let energy_drain = match read_ratio(p) {
        Ok(v) => v,
        Err(e) => {
            return Err(e);
        },
    };
    let module_slots = match read_int(p) {
        Ok(v) => v,
        Err(e) => {
            return Err(e);
        },
    };
    let allowed_effects = match read_allowed_effects(p) {
        Ok(v) => v,
        Err(e) => {
            return Err(e);
        },
    };
    Ok(
        (
            Machine {
                id,
                metadata,
                crafting_speed,
                energy_consumption,
                energy_drain,
                module_slots,
                supported_modules: Vec::new(),
            },
            allowed_effects,
        ),
    )
}

/// Reads one beacon record: ID, metadata, the distribution
/// effectivity, and the transient allowed-effect bits.
fn read_beacon(p: &mut Lines, table: &mut SymbolTable) -> (r: Result<
    (Beacon, AllowedEffects),
    Error,
>)
    requires
        old(p).wf(),
        old(table).wf(),
        old(table)@.len() + old(p).remaining() <= u32::MAX,
    ensures
        final(p).wf(),
        final(p).all() == old(p).all(),
        old(p).cursor() <= final(p).cursor(),
        final(table).wf(),
        final(table)@.len() + final(p).remaining() <= old(table)@.len() + old(p).remaining(),
        forall|i: int| 0 <= i < old(table)@.len() ==> final(table)@[i] == old(table)@[i],
        old(table)@.len() <= final(table)@.len(),
        match r {
            Ok(be) => be.0.syms_ok(final(table)@.len() as int) && be.0.distribution_effectivity.wf()
                && be.0.metadata.wf() && (be.0.metadata.icon matches Option::None)
                && be.0.supported_modules@.len() == 0 && old(p).remaining() >= 5
                && final(p).cursor() == old(p).cursor() + 5 && ({
                // Five consumed lines: the interned ID, two metadata
                // lines, the effectivity ratio, and the effect bits.
                let c = old(p).cursor();
                let ls = old(p).all();
                &&& be.0.id.0.idx() == crate::symbols::spec_intern(old(table)@, ls[c]).1
                &&& crate::approx::ratio_from_decimal_post(
                    ls[c + 3],
                    Result::Ok(be.0.distribution_effectivity),
                )
                &&& crate::decode::effects_shape_ok(ls[c + 4]) && be.1
                    == crate::decode::spec_effects(ls[c + 4])
            }),
            // A beacon record fails only on exhaustion or on a
            // malformed line of its own five.
            Err(_) => ({
                let c = old(p).cursor();
                let ls = old(p).all();
                ||| old(p).remaining() < 5
                ||| crate::decode::spec_localised(ls[c + 1]) matches Option::None
                ||| crate::decode::spec_localised(ls[c + 2]) matches Option::None
                ||| !crate::approx::decimal_shape_ok(ls[c + 3])
                ||| !crate::decode::effects_shape_ok(ls[c + 4])
            }),
        },
{
    let id = BeaconID(
        match read_str(p, table) {
            Ok(v) => v,
            Err(e) => {
                return Err(e);
            },
        },
    );
    let metadata = match read_metadata(p, table) {
        Ok(v) => v,
        Err(e) => {
            return Err(e);
        },
    };
    let distribution_effectivity = match read_ratio(p) {
        Ok(v) => v,
        Err(e) => {
            return Err(e);
        },
    };
    let allowed_effects = match read_allowed_effects(p) {
        Ok(v) => v,
        Err(e) => {
            return Err(e);
        },
    };
    Ok(
        (
            Beacon { id, metadata, distribution_effectivity, supported_modules: Vec::new() },
            allowed_effects,
        ),
    )
}

/// Shape of a fixed-width bit-string line: only `0` and `1` bytes.
pub open spec fn bits_shape_ok(s: Seq<u8>, width: int) -> bool {
    s.len() == width && forall|i: int| 0 <= i < s.len() ==> (s[i] == 48 || s[i] == 49)
}

/// Reads a two-bit optional-field flag line (fluid ingredient
/// temperature bounds).
fn read_two_flags(p: &mut Lines) -> (r: Result<(bool, bool), Error>)
    requires
        old(p).wf(),
    ensures
        final(p).wf(),
        final(p).all() == old(p).all(),
        old(p).cursor() <= final(p).cursor(),
        match r {
            Ok(f) => old(p).remaining() >= 1 && final(p).cursor() == old(p).cursor() + 1 && ({
                let line = old(p).all()[old(p).cursor()];
                bits_shape_ok(line, 2) && f.0 == (line[0] == 49) && f.1 == (line[1] == 49)
            }),
            Err(e) => e == Error::MalformedRecord && (old(p).remaining() == 0 || !bits_shape_ok(
                old(p).all()[old(p).cursor()],
                2,
            )),
        },
    {
    let line = match read_line(p) {
        Ok(v) => v,
        Err(e) => {
            return Err(e);
        },
    };
    if line.len() != 2 {
        return Err(Error::MalformedRecord);
    }
    let b0 = line[0];
    let b1 = line[1];
    if (b0 != 48 && b0 != 49) || (b1 != 48 && b1 != 49) {
        return Err(Error::MalformedRecord);
    }
    Ok((b0 == 49, b1 == 49))
}

/// Reads a one-bit flag line (module flag, limitations flag).
fn read_flag(p: &mut Lines) -> (r: Result<bool, Error>)
    requires
        old(p).wf(),
    ensures
        final(p).wf(),
        final(p).all() == old(p).all(),
        old(p).cursor() <= final(p).cursor(),
        match r {
            Ok(f) => old(p).remaining() >= 1 && final(p).cursor() == old(p).cursor() + 1 && ({
                let line = old(p).all()[old(p).cursor()];
                bits_shape_ok(line, 1) && f == (line[0] == 49)
            }),
            Err(e) => e == Error::MalformedRecord && (old(p).remaining() == 0 || !bits_shape_ok(
                old(p).all()[old(p).cursor()],
                1,
            )),
        },
    {
    let line = match read_line(p) {
        Ok(v) => v,
        Err(e) => {
            return Err(e);
        },
    };
    if line.len() != 1 {
        return Err(Error::MalformedRecord);
    }
    let b0 = line[0];
    if b0 != 48 && b0 != 49 {
        return Err(Error::MalformedRecord);
    }
    Ok(b0 == 49)
}

/// The lowercase keyword tokens of the wire protocol.
pub open spec fn item_token() -> Seq<u8> {
    seq![105u8, 116u8, 101u8, 109u8]
}

pub open spec fn fluid_token() -> Seq<u8> {
    seq![102u8, 108u8, 117u8, 105u8, 100u8]
}

pub open spec fn fixed_token() -> Seq<u8> {
    seq![102u8, 105u8, 120u8, 101u8, 100u8]
}

pub open spec fn probability_token() -> Seq<u8> {
    seq![112u8, 114u8, 111u8, 98u8, 97u8, 98u8, 105u8, 108u8, 105u8, 116u8, 121u8]
}

/// Reads a kind token and classifies it: `item` (0), `fluid` (1),
/// `fixed` (2) or `probability` (3).  Anything else is an
/// `UnknownVariant`.
fn read_kind(p: &mut Lines) -> (r: Result<u8, Error>)
    requires
        old(p).wf(),
    ensures
        final(p).wf(),
        final(p).all() == old(p).all(),
        old(p).cursor() <= final(p).cursor(),
        match r {
            Ok(k) => old(p).remaining() >= 1 && final(p).cursor() == old(p).cursor() + 1 && ({
                let line = old(p).all()[old(p).cursor()];
                &&& (k == 0 <==> line == item_token())
                &&& (k == 1 <==> line == fluid_token())
                &&& (k == 2 <==> line == fixed_token())
                &&& (k == 3 <==> line == probability_token())
                &&& k <= 3
            }),
            Err(e) => {
                &&& (e == Error::MalformedRecord <==> old(p).remaining() == 0)
                &&& (old(p).remaining() >= 1 ==> e == Error::UnknownVariant && ({
                    let line = old(p).all()[old(p).cursor()];
                    line != item_token() && line != fluid_token() && line != fixed_token()
                        && line != probability_token()
                }))
            },
        },
{
    let line = match read_line(p) {
        Ok(v) => v,
        Err(e) => {
            return Err(e);
        },
    };
    if line.len() == 4 && line[0] == 105 && line[1] == 116 && line[2] == 101 && line[3] == 109 {
        proof {
            assert(line@ =~= item_token());
        }
        Ok(0)
    } else if line.len() == 5 && line[0] == 102 && line[1] == 108 && line[2] == 117 && line[3]
        == 105 && line[4] == 100 {
        proof {
            assert(line@ =~= fluid_token());
        }
        Ok(1)
    } else if line.len() == 5 && line[0] == 102 && line[1] == 105 && line[2] == 120 && line[3]
        == 101 && line[4] == 100 {
        proof {
            assert(line@ =~= fixed_token());
        }
        Ok(2)
    } else if line.len() == 11 && line[0] == 112 && line[1] == 114 && line[2] == 111 && line[3]
        == 98 && line[4] == 97 && line[5] == 98 && line[6] == 105 && line[7] == 108 && line[8]
        == 105 && line[9] == 116 && line[10] == 121 {
        proof {
            assert(line@ =~= probability_token());
        }
        Ok(3)
    } else {
        proof {
            if line@ == item_token() {
                assert(line@.len() == 4 && line@[0] == 105 && line@[1] == 116 && line@[2] == 101
                    && line@[3] == 109);
            }
            if line@ == fluid_token() {
                assert(line@.len() == 5 && line@[0] == 102 && line@[1] == 108 && line@[2] == 117
                    && line@[3] == 105 && line@[4] == 100);
            }
            if line@ == fixed_token() {
                assert(line@.len() == 5 && line@[0] == 102 && line@[1] == 105 && line@[2] == 120
                    && line@[3] == 101 && line@[4] == 100);
            }
            if line@ == probability_token() {
                assert(line@.len() == 11 && line@[0] == 112 && line@[1] == 114 && line@[2] == 111
                    && line@[3] == 98 && line@[4] == 97 && line@[5] == 98 && line@[6] == 105
                    && line@[7] == 108 && line@[8] == 105 && line@[9] == 116 && line@[10] == 121);
            }
        }
        Err(Error::UnknownVariant)
    }
}

/// Reads one recipe record: ID, metadata, crafting time, the ordered
/// ingredient and product lists, and the set of machines that craft
/// it.  Duplicate crafting-machine entries collapse silently, as in a
/// set.
fn read_recipe(p: &mut Lines, table: &mut SymbolTable) -> (r: Result<Recipe, Error>)
    requires
        old(p).wf(),
        old(table).wf(),
        old(table)@.len() + old(p).remaining() <= u32::MAX,
    ensures
        final(p).wf(),
        final(p).all() == old(p).all(),
        old(p).cursor() <= final(p).cursor(),
        final(table).wf(),
        final(table)@.len() + final(p).remaining() <= old(table)@.len() + old(p).remaining(),
        old(table)@.len() <= final(table)@.len(),
        forall|i: int| 0 <= i < old(table)@.len() ==> final(table)@[i] == old(table)@[i],
        match r {
            Ok(rec) => rec.syms_ok(final(table)@.len() as int) && rec.time.wf() && rec.metadata.wf()
                && (rec.metadata.icon matches Option::None) && rec.supported_modules@.len() == 0
                && distinct_syms(
                rec.crafted_in@.map_values(|m: MachineID| m.0),
            ) && old(p).remaining() >= 4 && ({
                // The record starts with the interned ID, two metadata
                // lines and the exact crafting time; the variable-width
                // ingredient, product and machine lists follow.
                let c = old(p).cursor();
                let ls = old(p).all();
                &&& rec.id.0.idx() == crate::symbols::spec_intern(old(table)@, ls[c]).1
                &&& crate::approx::ratio_from_decimal_post(ls[c + 3], Result::Ok(rec.time))
            }),
            Err(_) => true,
        },
{
    let ghost budget = old(table)@.len() + old(p).remaining();
    let id = RecipeID(
        match read_str(p, table) {
            Ok(v) => v,
            Err(e) => {
                return Err(e);
            },
        },
    );
    let metadata = match read_metadata(p, table) {
        Ok(v) => v,
        Err(e) => {
            return Err(e);
        },
    };
    let time = match read_ratio(p) {
        Ok(v) => v,
        Err(e) => {
            return Err(e);
        },
    };
    let ingredient_count = match read_usize(p) {
        Ok(v) => v,
        Err(e) => {
            return Err(e);
        },
    };
    let mut ingredients: Vec<Ingredient> = Vec::new();
    let mut i: usize = 0;
    while i < ingredient_count
        invariant
            p.wf(),
            p.all() == old(p).all(),
            old(p).cursor() <= p.cursor(),
            table.wf(),
            table@.len() + p.remaining() <= budget,
            budget == old(table)@.len() + old(p).remaining(),
            budget <= u32::MAX,
            old(table)@.len() <= table@.len(),
            0 <= id.0.idx() < table@.len(),
            metadata.syms_ok(table@.len() as int),
            forall|k: int| 0 <= k < old(table)@.len() ==> table@[k] == old(table)@[k],
            forall|k: int|
                0 <= k < ingredients@.len() ==> (#[trigger] ingredients@[k]).syms_ok(
                    table@.len() as int,
                ),
        decreases ingredient_count - i,
    {
        let kind = match read_kind(p) {
            Ok(v) => v,
            Err(e) => {
                return Err(e);
            },
        };
        if kind > 1 {
            return Err(Error::UnknownVariant);
        }
        let rid = match read_str(p, table) {
            Ok(v) => v,
            Err(e) => {
                return Err(e);
            },
        };
        let amount = match read_ratio(p) {
            Ok(v) => v,
            Err(e) => {
                return Err(e);
            },
        };
        let catalyst_amount = match read_ratio(p) {
            Ok(v) => v,
            Err(e) => {
                return Err(e);
            },
        };
        let resource = if kind == 0 {
            IngredientResource::Item { id: ItemID(rid) }
        } else {
            let flags = match read_two_flags(p) {
                Ok(v) => v,
                Err(e) => {
                    return Err(e);
                },
            };
            let minimum_temperature = if flags.0 {
                match read_ratio(p) {
                    Ok(v) => Option::Some(v),
                    Err(e) => {
                        return Err(e);
                    },
                }
            } else {
                Option::None
            };
            let maximum_temperature = if flags.1 {
                match read_ratio(p) {
                    Ok(v) => Option::Some(v),
                    Err(e) => {
                        return Err(e);
                    },
                }
            } else {
                Option::None
            };
            IngredientResource::Fluid { id: FluidID(rid), minimum_temperature, maximum_temperature }
        };
        ingredients.push(Ingredient { resource, amount, catalyst_amount });
        i += 1;
    }
    let product_count = match read_usize(p) {
        Ok(v) => v,
        Err(e) => {
            return Err(e);
        },
    };
    let mut products: Vec<Product> = Vec::new();
    let mut j: usize = 0;
    while j < product_count
        invariant
            p.wf(),
            p.all() == old(p).all(),
            old(p).cursor() <= p.cursor(),
            table.wf(),
            table@.len() + p.remaining() <= budget,
            budget == old(table)@.len() + old(p).remaining(),
            budget <= u32::MAX,
            old(table)@.len() <= table@.len(),
            0 <= id.0.idx() < table@.len(),
            metadata.syms_ok(table@.len() as int),
            forall|k: int| 0 <= k < old(table)@.len() ==> table@[k] == old(table)@[k],
            forall|k: int|
                0 <= k < ingredients@.len() ==> (#[trigger] ingredients@[k]).syms_ok(
                    table@.len() as int,
                ),
            forall|k: int|
                0 <= k < products@.len() ==> (#[trigger] products@[k]).syms_ok(
                    table@.len() as int,
                ),
        decreases product_count - j,
    {
        let kind = match read_kind(p) {
            Ok(v) => v,
            Err(e) => {
                return Err(e);
            },
        };
        if kind > 1 {
            return Err(Error::UnknownVariant);
        }
        let rid = match read_str(p, table) {
            Ok(v) => v,
            Err(e) => {
                return Err(e);
            },
        };
        let resource = if kind == 0 {
            ProductResource::Item { id: ItemID(rid) }
        } else {
            let temperature = match read_ratio(p) {
                Ok(v) => v,
                Err(e) => {
                    return Err(e);
                },
            };
            ProductResource::Fluid { id: FluidID(rid), temperature }
        };
        let amount_kind = match read_kind(p) {
            Ok(v) => v,
            Err(e) => {
                return Err(e);
            },
        };
        let amount = if amount_kind == 2 {
            let amount = match read_ratio(p) {
                Ok(v) => v,
                Err(e) => {
                    return Err(e);
                },
            };
            let catalyst_amount = match read_ratio(p) {
                Ok(v) => v,
                Err(e) => {
                    return Err(e);
                },
            };
            ProductAmount::Fixed { amount, catalyst_amount }
        } else if amount_kind == 3 {
            let amount_min = match read_ratio(p) {
                Ok(v) => v,
                Err(e) => {
                    return Err(e);
                },
            };
            let amount_max = match read_ratio(p) {
                Ok(v) => v,
                Err(e) => {
                    return Err(e);
                },
            };
            let probability = match read_ratio(p) {
                Ok(v) => v,
                Err(e) => {
                    return Err(e);
                },
            };
            ProductAmount::Probability { amount_min, amount_max, probability }
        } else {
            return Err(Error::UnknownVariant);
        };
        products.push(Product { resource, amount });
        j += 1;
    }
    let crafted_in_count = match read_usize(p) {
        Ok(v) => v,
        Err(e) => {
            return Err(e);
        },
    };
    let mut crafted_in: Vec<MachineID> = Vec::new();
    let mut k: usize = 0;
    while k < crafted_in_count
        invariant
            p.wf(),
            p.all() == old(p).all(),
            old(p).cursor() <= p.cursor(),
            table.wf(),
            table@.len() + p.remaining() <= budget,
            budget == old(table)@.len() + old(p).remaining(),
            budget <= u32::MAX,
            old(table)@.len() <= table@.len(),
            0 <= id.0.idx() < table@.len(),
            metadata.syms_ok(table@.len() as int),
            forall|t: int| 0 <= t < old(table)@.len() ==> table@[t] == old(table)@[t],
            forall|k2: int|
                0 <= k2 < ingredients@.len() ==> (#[trigger] ingredients@[k2]).syms_ok(
                    table@.len() as int,
                ),
            forall|k2: int|
                0 <= k2 < products@.len() ==> (#[trigger] products@[k2]).syms_ok(
                    table@.len() as int,
                ),
            forall|t: int|
                0 <= t < crafted_in@.len() ==> 0 <= (#[trigger] crafted_in@[t]).0.idx()
                    < table@.len(),
            forall|t1: int, t2: int|
                #![trigger crafted_in@[t1], crafted_in@[t2]]
                0 <= t1 < t2 < crafted_in@.len() ==> crafted_in@[t1].0 != crafted_in@[t2].0,
        decreases crafted_in_count - k,
    {
        let mid = match read_str(p, table) {
            Ok(v) => v,
            Err(e) => {
                return Err(e);
            },
        };
        let ghost ci_old = crafted_in@;
        let mut seen = false;
        let mut t: usize = 0;
        let cn = crafted_in.len();
        while t < cn
            invariant
                t <= cn,
                cn == crafted_in@.len(),
                seen == (exists|u: int| 0 <= u < t && (#[trigger] crafted_in@[u]).0 == mid),
            decreases cn - t,
        {
            if crafted_in[t].0 .0 == mid.0 {
                proof {
                    assert(crafted_in@[t as int].0 == mid);
                }
                seen = true;
            }
            t += 1;
        }
        if !seen {
            crafted_in.push(MachineID(mid));
            proof {
                assert forall|t1: int, t2: int|
                    #![trigger crafted_in@[t1], crafted_in@[t2]]
                    0 <= t1 < t2 < crafted_in@.len() implies crafted_in@[t1].0 != crafted_in@[
                    t2].0 by {
                    if t2 == crafted_in@.len() - 1 {
                        assert(crafted_in@[t1] == ci_old[t1]);
                        assert(!(exists|u: int|
                            0 <= u < cn && (#[trigger] ci_old[u]).0 == mid));
                        if crafted_in@[t1].0 == mid {
                            assert(ci_old[t1].0 == mid);
                        }
                    } else {
                        assert(crafted_in@[t1] == ci_old[t1]);
                        assert(crafted_in@[t2] == ci_old[t2]);
                    }
                }
            }
        }
        k += 1;
    }
    proof {
        let cis = crafted_in@.map_values(|m: MachineID| m.0);
        assert forall|t1: int, t2: int|
            #![trigger cis[t1], cis[t2]]
            0 <= t1 < t2 < cis.len() implies cis[t1] != cis[t2] by {
            assert(cis[t1] == crafted_in@[t1].0);
            assert(cis[t2] == crafted_in@[t2].0);
        }
        assert(distinct_syms(cis));
    }
    Ok(
        Recipe {
            id,
            metadata,
            time,
            ingredients,
            products,
            crafted_in,
            supported_modules: Vec::new(),
        },
    )
}

/// Reads one fluid record: ID and metadata.
fn read_fluid(p: &mut Lines, table: &mut SymbolTable) -> (r: Result<Fluid, Error>)
    requires
        old(p).wf(),
        old(table).wf(),
        old(table)@.len() + old(p).remaining() <= u32::MAX,
    ensures
        final(p).wf(),
        final(p).all() == old(p).all(),
        old(p).cursor() <= final(p).cursor(),
        final(table).wf(),
        final(table)@.len() + final(p).remaining() <= old(table)@.len() + old(p).remaining(),
        old(table)@.len() <= final(table)@.len(),
        forall|i: int| 0 <= i < old(table)@.len() ==> final(table)@[i] == old(table)@[i],
        match r {
            Ok(f) => 0 <= f.id.0.idx() < final(table)@.len() && f.metadata.syms_ok(
                final(table)@.len() as int,
            ) && f.metadata.wf() && (f.metadata.icon matches Option::None) && old(p).remaining()
                >= 3 && final(p).cursor() == old(p).cursor() + 3 && f.id.0.idx()
                == crate::symbols::spec_intern(
                old(table)@,
                old(p).all()[old(p).cursor()],
            ).1,
            // A fluid record fails only on exhaustion or on a
            // malformed metadata line.
            Err(_) => ({
                let c = old(p).cursor();
                let ls = old(p).all();
                ||| old(p).remaining() < 3
                ||| crate::decode::spec_localised(ls[c + 1]) matches Option::None
                ||| crate::decode::spec_localised(ls[c + 2]) matches Option::None
            }),
        },
{
    let id = FluidID(
        match read_str(p, table) {
            Ok(v) => v,
            Err(e) => {
                return Err(e);
            },
        },
    );
    let metadata = match read_metadata(p, table) {
        Ok(v) => v,
        Err(e) => {
            return Err(e);
        },
    };
    Ok(Fluid { id, metadata })
}

/// True when some item of the list carries `id`.
pub open spec fn has_item_id(items: Seq<Item>, id: ItemID) -> bool {
    exists|i: int| #![trigger items[i]] 0 <= i < items.len() && items[i].id == id
}

/// Whether an item with `id` has been read already.
fn item_id_present(items: &Vec<Item>, id: ItemID) -> (r: bool)
    ensures
        r == has_item_id(items@, id),
{
    let n = items.len();
    let mut i: usize = 0;
    while i < n
        invariant
            i <= n,
            n == items@.len(),
            forall|j: int| #![trigger items@[j]] 0 <= j < i ==> items@[j].id != id,
        decreases n - i,
    {
        if items[i].id.0 .0 == id.0 .0 {
            proof {
                assert(items@[i as int].id == id);
            }
            return true;
        }
        i += 1;
    }
    proof {
        if has_item_id(items@, id) {
            let j = choose|j: int| #![trigger items@[j]] 0 <= j < items@.len() && items@[j].id == id;
            assert(items@[j].id != id);
        }
    }
    false
}

/// All fields but the supported-module set agree.
pub open spec fn same_recipe_core(a: Recipe, b: Recipe) -> bool {
    &&& a.id == b.id
    &&& a.metadata == b.metadata
    &&& a.time == b.time
    &&& a.ingredients == b.ingredients
    &&& a.products == b.products
    &&& a.crafted_in == b.crafted_in
}

/// Declares `id` supported by recipe `j`, ignoring a repeated
/// declaration (set semantics).
fn add_support(recipes: &mut Vec<Recipe>, j: usize, id: ItemID)
    requires
        j < old(recipes)@.len(),
    ensures
        final(recipes)@.len() == old(recipes)@.len(),
        forall|i: int|
            0 <= i < old(recipes)@.len() && i != j ==> final(recipes)@[i] == old(recipes)@[i],
        same_recipe_core(final(recipes)@[j as int], old(recipes)@[j as int]),
        final(recipes)@[j as int].supported_modules@ == old(recipes)@[j as int].supported_modules@
            || final(recipes)@[j as int].supported_modules@ == old(
            recipes,
        )@[j as int].supported_modules@.push(id),
        final(recipes)@[j as int].supported_modules@.contains(id),
        distinct_syms(
            old(recipes)@[j as int].supported_modules@.map_values(|m: ItemID| m.0),
        ) ==> distinct_syms(
            final(recipes)@[j as int].supported_modules@.map_values(|m: ItemID| m.0),
        ),
{
    let mut rec = recipes.remove(j);
    let ghost sup_old = rec.supported_modules@;
    if !contains_item_id(&rec.supported_modules, id) {
        rec.supported_modules.push(id);
        proof {
            let sup = rec.supported_modules@;
            assert(sup[sup.len() - 1] == id);
            assert(sup.contains(id));
            let olds = sup_old.map_values(|m: ItemID| m.0);
            let news = sup.map_values(|m: ItemID| m.0);
            if distinct_syms(olds) {
                assert forall|t1: int, t2: int|
                    #![trigger news[t1], news[t2]]
                    0 <= t1 < t2 < news.len() implies news[t1] != news[t2] by {
                    assert(news[t1] == sup[t1].0 && news[t2] == sup[t2].0);
                    if t2 == sup.len() - 1 {
                        assert(sup[t1] == sup_old[t1]);
                        assert(!sup_old.contains(id));
                        if sup_old[t1].0 == id.0 {
                            assert(sup_old[t1] == id);
                            assert(sup_old.contains(id));
                        }
                    } else {
                        assert(sup[t1] == sup_old[t1] && sup[t2] == sup_old[t2]);
                        assert(olds[t1] == sup_old[t1].0 && olds[t2] == sup_old[t2].0);
                    }
                }
                assert(distinct_syms(news));
            }
        }
    } else {
        proof {
            let w = choose|w: int| 0 <= w < sup_old.len() && sup_old[w] == id;
            assert(rec.supported_modules@[w] == id);
            assert(rec.supported_modules@.contains(id));
        }
    }
    recipes.insert(j, rec);
    proof {
        assert forall|i: int|
            0 <= i < old(recipes)@.len() && i != j implies final(recipes)@[i] == old(
            recipes,
        )@[i] by {
            if i < j {
                assert(final(recipes)@[i] == old(recipes)@.remove(j as int)[i]);
            } else {
                assert(final(recipes)@[i] == old(recipes)@.remove(j as int)[i - 1]);
            }
        }
        assert(final(recipes)@[j as int] == rec);
    }
}

/// The recipe-side invariants survive interning growth and an extra
/// candidate item.
proof fn lemma_recipes_state_carries(
    rold: Seq<Recipe>,
    rnew: Seq<Recipe>,
    items: Seq<Item>,
    it: Item,
    tlen: int,
)
    requires
        rnew == rold,
        forall|i: int, t: int|
            0 <= i < rold.len() && 0 <= t < rold[i].supported_modules@.len() ==> has_item_id(
                items,
                #[trigger] rold[i].supported_modules@[t],
            ),
    ensures
        forall|i: int, t: int|
            0 <= i < rnew.len() && 0 <= t < rnew[i].supported_modules@.len() ==> has_item_id(
                items.push(it),
                #[trigger] rnew[i].supported_modules@[t],
            ),
        forall|i: int|
            0 <= i < rnew.len() ==> same_recipe_core(#[trigger] rnew[i], rold[i]),
{
    assert forall|i: int, t: int|
        0 <= i < rnew.len() && 0 <= t < rnew[i].supported_modules@.len() implies has_item_id(
        items.push(it),
        #[trigger] rnew[i].supported_modules@[t],
    ) by {
        assert(has_item_id(items, rold[i].supported_modules@[t]));
        let w = choose|w: int|
            #![trigger items[w]]
            0 <= w < items.len() && items[w].id == rold[i].supported_modules@[t];
        assert(items.push(it)[w] == items[w]);
    }
}

/// Reads one item record: ID, metadata and the module flag; a module
/// item also carries its four effect modifiers and its recipe
/// limitations, which are resolved against the recipes read so far.
#[verifier::rlimit(100)]
fn read_item(
    p: &mut Lines,
    table: &mut SymbolTable,
    items: &Vec<Item>,
    recipes: &mut Vec<Recipe>,
    modules: &mut Vec<Module>,
) -> (r: Result<Item, Error>)
    requires
        old(p).wf(),
        old(table).wf(),
        old(table)@.len() + old(p).remaining() <= u32::MAX,
        forall|i: int| 0 <= i < old(recipes)@.len() ==> (#[trigger] old(recipes)@[i]).syms_ok(
            old(table)@.len() as int,
        ),
        forall|i: int|
            0 <= i < old(recipes)@.len() ==> distinct_syms(
                (#[trigger] old(recipes)@[i]).supported_modules@.map_values(|m: ItemID| m.0),
            ),
        forall|i: int, t: int|
            0 <= i < old(recipes)@.len() && 0 <= t
                < old(recipes)@[i].supported_modules@.len() ==> has_item_id(
                items@,
                #[trigger] old(recipes)@[i].supported_modules@[t],
            ),
        forall|i: int, t: int|
            0 <= i < old(recipes)@.len() && 0 <= t
                < old(recipes)@[i].supported_modules@.len() ==> has_module_id(
                old(modules)@,
                #[trigger] old(recipes)@[i].supported_modules@[t],
            ),
    ensures
        final(p).wf(),
        final(p).all() == old(p).all(),
        old(p).cursor() <= final(p).cursor(),
        final(table).wf(),
        final(table)@.len() + final(p).remaining() <= old(table)@.len() + old(p).remaining(),
        old(table)@.len() <= final(table)@.len(),
        forall|i: int| 0 <= i < old(table)@.len() ==> final(table)@[i] == old(table)@[i],
        match r {
            Ok(it) => {
                &&& 0 <= it.id.0.idx() < final(table)@.len()
                &&& it.metadata.syms_ok(final(table)@.len() as int)
                &&& it.metadata.wf()
                &&& it.metadata.icon matches Option::None
                &&& !has_item_id(items@, it.id)
                &&& old(p).remaining() >= 4
                &&& it.id.0.idx() == crate::symbols::spec_intern(
                    old(table)@,
                    old(p).all()[old(p).cursor()],
                ).1
                &&& final(recipes)@.len() == old(recipes)@.len()
                &&& forall|i: int|
                    0 <= i < final(recipes)@.len() ==> same_recipe_core(
                        #[trigger] final(recipes)@[i],
                        old(recipes)@[i],
                    )
                &&& forall|i: int| 0 <= i < final(recipes)@.len() ==> (
                #[trigger] final(recipes)@[i]).syms_ok(final(table)@.len() as int)
                &&& forall|i: int|
                    0 <= i < final(recipes)@.len() ==> distinct_syms(
                        (#[trigger] final(recipes)@[i]).supported_modules@.map_values(
                            |m: ItemID| m.0,
                        ),
                    )
                &&& forall|i: int, t: int|
                    0 <= i < final(recipes)@.len() && 0 <= t
                        < final(recipes)@[i].supported_modules@.len() ==> has_item_id(
                        items@.push(it),
                        #[trigger] final(recipes)@[i].supported_modules@[t],
                    )
                &&& forall|i: int, t: int|
                    0 <= i < final(recipes)@.len() && 0 <= t
                        < final(recipes)@[i].supported_modules@.len() ==> has_module_id(
                        final(modules)@,
                        #[trigger] final(recipes)@[i].supported_modules@[t],
                    )
                &&& (final(modules)@ == old(modules)@ || (final(modules)@.len() == old(
                    modules,
                )@.len() + 1 && final(modules)@.subrange(0, old(modules)@.len() as int) == old(
                    modules,
                )@ && final(modules)@.last().id == it.id
                    && final(modules)@.last().modifier_energy.wf()
                    && final(modules)@.last().modifier_speed.wf()
                    && final(modules)@.last().modifier_productivity.wf()
                    && final(modules)@.last().modifier_pollution.wf()))
            },
            Err(_) => true,
        },
{
    let ghost budget = old(table)@.len() + old(p).remaining();
    let id = ItemID(
        match read_str(p, table) {
            Ok(v) => v,
            Err(e) => {
                return Err(e);
            },
        },
    );
    if item_id_present(items, id) {
        // A duplicate would collapse the identity-keyed set below its
        // declared count.
        return Err(Error::SchemaMismatch);
    }
    let metadata = match read_metadata(p, table) {
        Ok(v) => v,
        Err(e) => {
            return Err(e);
        },
    };
    let is_module = match read_flag(p) {
        Ok(v) => v,
        Err(e) => {
            return Err(e);
        },
    };
    let it = Item { id, metadata };
    proof {
        lemma_recipes_state_carries(old(recipes)@, recipes@, items@, it, table@.len() as int);
    }
    if !is_module {
        return Ok(it);
    }
    let modifier_energy = match read_ratio(p) {
        Ok(v) => v,
        Err(e) => {
            return Err(e);
        },
    };
    let modifier_speed = match read_ratio(p) {
        Ok(v) => v,
        Err(e) => {
            return Err(e);
        },
    };
    let modifier_productivity = match read_ratio(p) {
        Ok(v) => v,
        Err(e) => {
            return Err(e);
        },
    };
    let modifier_pollution = match read_ratio(p) {
        Ok(v) => v,
        Err(e) => {
            return Err(e);
        },
    };
    modules.push(
        Module {
            id,
            modifier_energy,
            modifier_speed,
            modifier_productivity,
            modifier_pollution,
        },
    );
    proof {
        assert(modules@.subrange(0, old(modules)@.len() as int) =~= old(modules)@);
        assert(has_module_id(modules@, it.id)) by {
            assert(modules@[modules@.len() - 1].id == it.id);
        }
        assert forall|i: int, t: int|
            0 <= i < recipes@.len() && 0 <= t
                < recipes@[i].supported_modules@.len() implies has_module_id(
            modules@,
            #[trigger] recipes@[i].supported_modules@[t],
        ) by {
            assert(has_module_id(old(modules)@, old(recipes)@[i].supported_modules@[t]));
            let w = choose|w: int|
                #![trigger old(modules)@[w]]
                0 <= w < old(modules)@.len() && old(modules)@[w].id == recipes@[
                    i].supported_modules@[t];
            assert(modules@[w] == modules@.subrange(0, old(modules)@.len() as int)[w]);
        }
    }
    let has_limitations = match read_flag(p) {
        Ok(v) => v,
        Err(e) => {
            return Err(e);
        },
    };
    let ghost tlen1 = table@.len() as int;
    if has_limitations {
        let limitation_count = match read_usize(p) {
            Ok(v) => v,
            Err(e) => {
                return Err(e);
            },
        };
        let mut li: usize = 0;
        while li < limitation_count
            invariant
                p.wf(),
                p.all() == old(p).all(),
                old(p).cursor() <= p.cursor(),
                table.wf(),
                table@.len() + p.remaining() <= budget,
                budget == old(table)@.len() + old(p).remaining(),
                budget <= u32::MAX,
                old(table)@.len() <= table@.len(),
                forall|k: int| 0 <= k < old(table)@.len() ==> table@[k] == old(table)@[k],
                0 <= it.id.0.idx() < table@.len(),
                it.metadata.syms_ok(table@.len() as int),
                recipes@.len() == old(recipes)@.len(),
                forall|i: int|
                    0 <= i < recipes@.len() ==> same_recipe_core(
                        #[trigger] recipes@[i],
                        old(recipes)@[i],
                    ),
                forall|i: int| 0 <= i < recipes@.len() ==> (#[trigger] recipes@[i]).syms_ok(
                    table@.len() as int,
                ),
                forall|i: int|
                    0 <= i < recipes@.len() ==> distinct_syms(
                        (#[trigger] recipes@[i]).supported_modules@.map_values(|m: ItemID| m.0),
                    ),
                forall|i: int, t: int|
                    0 <= i < recipes@.len() && 0 <= t
                        < recipes@[i].supported_modules@.len() ==> has_item_id(
                        items@.push(it),
                        #[trigger] recipes@[i].supported_modules@[t],
                    ),
                forall|i: int, t: int|
                    0 <= i < recipes@.len() && 0 <= t
                        < recipes@[i].supported_modules@.len() ==> has_module_id(
                        modules@,
                        #[trigger] recipes@[i].supported_modules@[t],
                    ),
                has_module_id(modules@, it.id),
            decreases limitation_count - li,
        {
            let rid = RecipeID(
                match read_str(p, table) {
                    Ok(v) => v,
                    Err(e) => {
                        return Err(e);
                    },
                },
            );
            let j = match index_of_recipe(recipes, rid) {
                Option::Some(j) => j,
                Option::None => {
                    // A limitation names a recipe absent from the set.
                    return Err(Error::ReferenceError);
                },
            };
            let ghost recipes_old = recipes@;
            add_support(recipes, j, it.id);
            proof {
                assert(has_item_id(items@.push(it), it.id)) by {
                    assert(items@.push(it)[items@.len() as int] == it);
                }
                assert forall|i: int|
                    0 <= i < recipes@.len() implies (#[trigger] recipes@[i]).syms_ok(
                    table@.len() as int,
                ) && distinct_syms(
                    recipes@[i].supported_modules@.map_values(|m: ItemID| m.0),
                ) && same_recipe_core(recipes@[i], old(recipes)@[i]) && (forall|t: int|
                    0 <= t < recipes@[i].supported_modules@.len() ==> has_item_id(
                        items@.push(it),
                        #[trigger] recipes@[i].supported_modules@[t],
                    )) by {
                    if i == j {
                        let sup_old = recipes_old[i].supported_modules@;
                        let sup = recipes@[i].supported_modules@;
                        if sup != sup_old {
                            assert(sup == sup_old.push(it.id));
                            assert forall|t: int|
                                0 <= t < sup.len() implies has_item_id(
                                items@.push(it),
                                #[trigger] sup[t],
                            ) by {
                                if t < sup_old.len() {
                                    assert(sup[t] == sup_old[t]);
                                } else {
                                    assert(sup[t] == it.id);
                                }
                            }
                        }
                    } else {
                        assert(recipes@[i] == recipes_old[i]);
                    }
                }
                assert forall|i: int, t: int|
                    0 <= i < recipes@.len() && 0 <= t
                        < recipes@[i].supported_modules@.len() implies has_module_id(
                    modules@,
                    #[trigger] recipes@[i].supported_modules@[t],
                ) by {
                    let sup_old = recipes_old[i].supported_modules@;
                    let sup = recipes@[i].supported_modules@;
                    if i != j {
                        assert(recipes@[i] == recipes_old[i]);
                        assert(has_module_id(modules@, sup_old[t]));
                    } else if sup == sup_old {
                        assert(has_module_id(modules@, sup_old[t]));
                    } else {
                        assert(sup == sup_old.push(it.id));
                        if t < sup_old.len() {
                            assert(sup[t] == sup_old[t]);
                            assert(has_module_id(modules@, sup_old[t]));
                        } else {
                            assert(sup[t] == it.id);
                        }
                    }
                }
            }
            li += 1;
        }
    } else {
        // No explicit limitations: the module applies to every recipe
        // parsed so far.
        let rn = recipes.len();
        let mut j: usize = 0;
        while j < rn
            invariant
                j <= rn,
                rn == recipes@.len(),
                table.wf(),
                0 <= it.id.0.idx() < table@.len(),
                recipes@.len() == old(recipes)@.len(),
                forall|i: int|
                    0 <= i < recipes@.len() ==> same_recipe_core(
                        #[trigger] recipes@[i],
                        old(recipes)@[i],
                    ),
                forall|i: int| 0 <= i < recipes@.len() ==> (#[trigger] recipes@[i]).syms_ok(
                    table@.len() as int,
                ),
                forall|i: int|
                    0 <= i < recipes@.len() ==> distinct_syms(
                        (#[trigger] recipes@[i]).supported_modules@.map_values(|m: ItemID| m.0),
                    ),
                forall|i: int, t: int|
                    0 <= i < recipes@.len() && 0 <= t
                        < recipes@[i].supported_modules@.len() ==> has_item_id(
                        items@.push(it),
                        #[trigger] recipes@[i].supported_modules@[t],
                    ),
                forall|i: int, t: int|
                    0 <= i < recipes@.len() && 0 <= t
                        < recipes@[i].supported_modules@.len() ==> has_module_id(
                        modules@,
                        #[trigger] recipes@[i].supported_modules@[t],
                    ),
                has_module_id(modules@, it.id),
            decreases rn - j,
        {
            let ghost recipes_old = recipes@;
            add_support(recipes, j, it.id);
            proof {
                assert(has_item_id(items@.push(it), it.id)) by {
                    assert(items@.push(it)[items@.len() as int] == it);
                }
                assert forall|i: int|
                    0 <= i < recipes@.len() implies (#[trigger] recipes@[i]).syms_ok(
                    table@.len() as int,
                ) && distinct_syms(
                    recipes@[i].supported_modules@.map_values(|m: ItemID| m.0),
                ) && same_recipe_core(recipes@[i], old(recipes)@[i]) && (forall|t: int|
                    0 <= t < recipes@[i].supported_modules@.len() ==> has_item_id(
                        items@.push(it),
                        #[trigger] recipes@[i].supported_modules@[t],
                    )) by {
                    if i == j {
                        let sup_old = recipes_old[i].supported_modules@;
                        let sup = recipes@[i].supported_modules@;
                        if sup != sup_old {
                            assert(sup == sup_old.push(it.id));
                            assert forall|t: int|
                                0 <= t < sup.len() implies has_item_id(
                                items@.push(it),
                                #[trigger] sup[t],
                            ) by {
                                if t < sup_old.len() {
                                    assert(sup[t] == sup_old[t]);
                                } else {
                                    assert(sup[t] == it.id);
                                }
                            }
                        }
                    } else {
                        assert(recipes@[i] == recipes_old[i]);
                    }
                }
                assert forall|i: int, t: int|
                    0 <= i < recipes@.len() && 0 <= t
                        < recipes@[i].supported_modules@.len() implies has_module_id(
                    modules@,
                    #[trigger] recipes@[i].supported_modules@[t],
                ) by {
                    let sup_old = recipes_old[i].supported_modules@;
                    let sup = recipes@[i].supported_modules@;
                    if i != j {
                        assert(recipes@[i] == recipes_old[i]);
                        assert(has_module_id(modules@, sup_old[t]));
                    } else if sup == sup_old {
                        assert(has_module_id(modules@, sup_old[t]));
                    } else {
                        assert(sup == sup_old.push(it.id));
                        if t < sup_old.len() {
                            assert(sup[t] == sup_old[t]);
                            assert(has_module_id(modules@, sup_old[t]));
                        } else {
                            assert(sup[t] == it.id);
                        }
                    }
                }
            }
            j += 1;
        }
    }
    Ok(it)
}

/// Whether a machine with `id` has been read already.
fn machine_id_present(v: &Vec<(Machine, AllowedEffects)>, id: MachineID) -> (r: bool)
    ensures
        r == exists|i: int| #![trigger v@[i]] 0 <= i < v@.len() && v@[i].0.id == id,
{
    let n = v.len();
    let mut i: usize = 0;
    while i < n
        invariant
            i <= n,
            n == v@.len(),
            forall|j: int| #![trigger v@[j]] 0 <= j < i ==> v@[j].0.id != id,
        decreases n - i,
    {
        if v[i].0.id.0 .0 == id.0 .0 {
            proof {
                assert(v@[i as int].0.id == id);
            }
            return true;
        }
        i += 1;
    }
    proof {
        if exists|j: int| #![trigger v@[j]] 0 <= j < v@.len() && v@[j].0.id == id {
            let j = choose|j: int| #![trigger v@[j]] 0 <= j < v@.len() && v@[j].0.id == id;
            assert(v@[j].0.id != id);
        }
    }
    false
}

/// Whether a beacon with `id` has been read already.
fn beacon_id_present(v: &Vec<(Beacon, AllowedEffects)>, id: BeaconID) -> (r: bool)
    ensures
        r == exists|i: int| #![trigger v@[i]] 0 <= i < v@.len() && v@[i].0.id == id,
{
    let n = v.len();
    let mut i: usize = 0;
    while i < n
        invariant
            i <= n,
            n == v@.len(),
            forall|j: int| #![trigger v@[j]] 0 <= j < i ==> v@[j].0.id != id,
        decreases n - i,
    {
        if v[i].0.id.0 .0 == id.0 .0 {
            proof {
                assert(v@[i as int].0.id == id);
            }
            return true;
        }
        i += 1;
    }
    proof {
        if exists|j: int| #![trigger v@[j]] 0 <= j < v@.len() && v@[j].0.id == id {
            let j = choose|j: int| #![trigger v@[j]] 0 <= j < v@.len() && v@[j].0.id == id;
            assert(v@[j].0.id != id);
        }
    }
    false
}

/// Whether a fluid with `id` has been read already.
fn fluid_id_present(v: &Vec<Fluid>, id: FluidID) -> (r: bool)
    ensures
        r == exists|i: int| #![trigger v@[i]] 0 <= i < v@.len() && v@[i].id == id,
{
    let n = v.len();
    let mut i: usize = 0;
    while i < n
        invariant
            i <= n,
            n == v@.len(),
            forall|j: int| #![trigger v@[j]] 0 <= j < i ==> v@[j].id != id,
        decreases n - i,
    {
        if v[i].id.0 .0 == id.0 .0 {
            proof {
                assert(v@[i as int].id == id);
            }
            return true;
        }
        i += 1;
    }
    proof {
        if exists|j: int| #![trigger v@[j]] 0 <= j < v@.len() && v@[j].id == id {
            let j = choose|j: int| #![trigger v@[j]] 0 <= j < v@.len() && v@[j].id == id;
            assert(v@[j].id != id);
        }
    }
    false
}

/// Turns the decoded payload lines into the validated game model.
///
/// The header's five counts fix how many records of each category
/// follow, in the order machines, beacons, recipes, items (with their
/// modules), fluids.  After all sections are read, every machine's and
/// beacon's supported-module set is computed from its transient
/// allowed-effect bits and discarded flags.  On success the model is
/// well-formed: each collection's length equals its declared count and
/// holds pairwise-distinct IDs, and every symbol is valid in the
/// table.
#[verifier::rlimit(100)]
pub fn transform_data(lines: Vec<Vec<u8>>, table: &mut SymbolTable) -> (r: Result<GameData, Error>)
    requires
        old(table).wf(),
        old(table)@.len() + lines@.len() <= u32::MAX,
    ensures
        final(table).wf(),
        old(table)@.len() <= final(table)@.len(),
        forall|i: int| 0 <= i < old(table)@.len() ==> final(table)@[i] == old(table)@[i],
        match r {
            Ok(gd) => gd.wf() && gd.syms_ok(final(table)@.len() as int) && (
            gd.tile_metadata matches Option::None) && ({
                let ls = lines@.map_values(|v: Vec<u8>| v@);
                &&& ls.len() >= 1 && spec_header(ls[0]) == Option::Some(
                    (
                        gd.machines@.len() as int,
                        gd.beacons@.len() as int,
                        gd.recipes@.len() as int,
                        gd.items@.len() as int,
                        gd.fluids@.len() as int,
                    ),
                )
                // Icon slots exist only after the atlas stage.
                &&& forall|i: int|
                    0 <= i < gd.items@.len() ==> ((#[trigger] gd.items@[i]).metadata.icon
                        matches Option::None)
                &&& forall|i: int|
                    0 <= i < gd.fluids@.len() ==> ((#[trigger] gd.fluids@[i]).metadata.icon
                        matches Option::None)
                &&& forall|i: int|
                    0 <= i < gd.recipes@.len() ==> ((#[trigger] gd.recipes@[i]).metadata.icon
                        matches Option::None)
                &&& forall|i: int|
                    0 <= i < gd.machines@.len() ==> ((#[trigger] gd.machines@[i]).metadata.icon
                        matches Option::None)
                &&& forall|i: int|
                    0 <= i < gd.beacons@.len() ==> ((#[trigger] gd.beacons@[i]).metadata.icon
                        matches Option::None)
                // Modules reuse the item ID space.
                &&& forall|k: int|
                    0 <= k < gd.modules@.len() ==> has_item_id(
                        gd.items@,
                        (#[trigger] gd.modules@[k]).id,
                    )
                // Every supported module of a recipe is one of the
                // parsed modules, each declared at most once.
                &&& forall|k: int, t: int|
                    0 <= k < gd.recipes@.len() && 0 <= t
                        < gd.recipes@[k].supported_modules@.len() ==> has_module_id(
                        gd.modules@,
                        #[trigger] gd.recipes@[k].supported_modules@[t],
                    )
                &&& forall|k: int|
                    0 <= k < gd.recipes@.len() ==> distinct_syms(
                        (#[trigger] gd.recipes@[k]).supported_modules@.map_values(|m: ItemID| m.0),
                    )
                // Each machine's and beacon's supported modules are the
                // effect-gate filter of the whole module list, with the
                // gates taken from that record's own effects line, and
                // hold no ID twice.
                &&& forall|k: int|
                    #![trigger gd.machines@[k]]
                    0 <= k < gd.machines@.len() ==> supports_from_line(
                        gd.machines@[k].supported_modules@,
                        gd.modules@,
                        ls,
                        8 * k + 8,
                    ) && distinct_syms(
                        gd.machines@[k].supported_modules@.map_values(|m: ItemID| m.0),
                    )
                &&& forall|k: int|
                    #![trigger gd.beacons@[k]]
                    0 <= k < gd.beacons@.len() ==> supports_from_line(
                        gd.beacons@[k].supported_modules@,
                        gd.modules@,
                        ls,
                        1 + 8 * gd.machines@.len() + 5 * k + 4,
                    ) && distinct_syms(
                        gd.beacons@[k].supported_modules@.map_values(|m: ItemID| m.0),
                    )
            }),
            Err(e) => lines@.len() == 0 ==> e == Error::MalformedRecord,
        },
        // A header that declares no records at all is a complete, empty
        // data set: the call is obliged to succeed on it.
        (lines@.len() >= 1 && spec_header(lines@.map_values(|v: Vec<u8>| v@)[0]) == Option::Some(
            (0int, 0int, 0int, 0int, 0int),
        )) ==> (r matches Ok(_)),
{
    let ghost ls = lines@.map_values(|v: Vec<u8>| v@);
    let mut p = Lines::new(lines);
    let ghost budget = old(table)@.len() + p.remaining();
    let h = match read_header(&mut p) {
        Ok(v) => v,
        Err(e) => {
            proof {
                if ls.len() >= 1 && spec_header(ls[0]) == Option::Some(
                    (0int, 0int, 0int, 0int, 0int),
                ) {
                    assert(false);
                }
            }
            return Err(e);
        },
    };
    let (machine_count, beacon_count, recipe_count, item_count, fluid_count) = h;
    let ghost header_vals = (
        machine_count as int,
        beacon_count as int,
        recipe_count as int,
        item_count as int,
        fluid_count as int,
    );
    proof {
        assert(spec_header(ls[0]) == Option::Some(header_vals));
    }
    // Machines, with their transient effect gates.
    let mut machines_fx: Vec<(Machine, AllowedEffects)> = Vec::new();
    let mut i: usize = 0;
    while i < machine_count
        invariant
            i <= machine_count,
            p.wf(),
            p.all() == ls,
            table.wf(),
            table@.len() + p.remaining() <= budget,
            budget == old(table)@.len() + ls.len(),
            ls == lines@.map_values(|v: Vec<u8>| v@),
            ls.len() >= 1,
            spec_header(ls[0]) == Option::Some(
                (
                    machine_count as int,
                    beacon_count as int,
                    recipe_count as int,
                    item_count as int,
                    fluid_count as int,
                ),
            ),
            budget <= u32::MAX,
            old(table)@.len() <= table@.len(),
            forall|k: int| 0 <= k < old(table)@.len() ==> table@[k] == old(table)@[k],
            machines_fx@.len() == i,
            p.cursor() == 1 + 8 * i,
            forall|k: int|
                0 <= k < machines_fx@.len() ==> (#[trigger] machines_fx@[k]).0.syms_ok(
                    table@.len() as int,
                ) && machines_fx@[k].0.metadata.wf() && (machines_fx@[k].0.metadata.icon
                    matches Option::None) && machines_fx@[k].0.supported_modules@.len() == 0,
            forall|k: int|
                #![trigger machines_fx@[k]]
                0 <= k < machines_fx@.len() ==> gates_from(ls, 8 * k + 8, machines_fx@[k].1),
            forall|k1: int, k2: int|
                #![trigger machines_fx@[k1], machines_fx@[k2]]
                0 <= k1 < k2 < machines_fx@.len() ==> machines_fx@[k1].0.id.0 != machines_fx@[
                    k2].0.id.0,
        decreases machine_count - i,
    {
        let me = match read_machine(&mut p, table) {
            Ok(v) => v,
            Err(e) => {
                return Err(e);
            },
        };
        if machine_id_present(&machines_fx, me.0.id) {
            // A duplicate collapses the identity-keyed set below its
            // declared count.
            return Err(Error::SchemaMismatch);
        }
        let ghost mfx_old = machines_fx@;
        machines_fx.push(me);
        proof {
            assert forall|k: int|
                #![trigger machines_fx@[k]]
                0 <= k < machines_fx@.len() implies gates_from(ls, 8 * k + 8, machines_fx@[k].1) by {
                if k < mfx_old.len() {
                    assert(machines_fx@[k] == mfx_old[k]);
                    assert(gates_from(ls, 8 * k + 8, mfx_old[k].1));
                } else {
                    assert(machines_fx@[k] == me);
                    assert(k == i);
                    assert(crate::decode::effects_shape_ok(ls[1 + 8 * (i as int) + 7]));
                    assert(me.1 == crate::decode::spec_effects(ls[1 + 8 * (i as int) + 7]));
                    assert(8 * k + 8 == 1 + 8 * (i as int) + 7);
                }
            }
            assert forall|k1: int, k2: int|
                #![trigger machines_fx@[k1], machines_fx@[k2]]
                0 <= k1 < k2 < machines_fx@.len() implies machines_fx@[k1].0.id.0 != machines_fx@[
                k2].0.id.0 by {
                if k2 == machines_fx@.len() - 1 {
                    assert(machines_fx@[k1] == mfx_old[k1]);
                    if machines_fx@[k1].0.id.0 == machines_fx@[k2].0.id.0 {
                        assert(mfx_old[k1].0.id == machines_fx@[k2].0.id);
                    }
                } else {
                    assert(machines_fx@[k1] == mfx_old[k1]);
                    assert(machines_fx@[k2] == mfx_old[k2]);
                }
            }
        }
        i += 1;
    }
    // Beacons, with their transient effect gates.
    let mut beacons_fx: Vec<(Beacon, AllowedEffects)> = Vec::new();
    let mut ib: usize = 0;
    while ib < beacon_count
        invariant
            ib <= beacon_count,
            p.wf(),
            p.all() == ls,
            table.wf(),
            table@.len() + p.remaining() <= budget,
            budget == old(table)@.len() + ls.len(),
            ls == lines@.map_values(|v: Vec<u8>| v@),
            ls.len() >= 1,
            spec_header(ls[0]) == Option::Some(
                (
                    machine_count as int,
                    beacon_count as int,
                    recipe_count as int,
                    item_count as int,
                    fluid_count as int,
                ),
            ),
            budget <= u32::MAX,
            old(table)@.len() <= table@.len(),
            forall|k: int| 0 <= k < old(table)@.len() ==> table@[k] == old(table)@[k],
            forall|k: int|
                0 <= k < machines_fx@.len() ==> (#[trigger] machines_fx@[k]).0.syms_ok(
                    table@.len() as int,
                ) && machines_fx@[k].0.metadata.wf() && machines_fx@[
                    k].0.supported_modules@.len() == 0,
            forall|k1: int, k2: int|
                #![trigger machines_fx@[k1], machines_fx@[k2]]
                0 <= k1 < k2 < machines_fx@.len() ==> machines_fx@[k1].0.id.0 != machines_fx@[
                    k2].0.id.0,
            machines_fx@.len() == machine_count,
            beacons_fx@.len() == ib,
            p.cursor() == 1 + 8 * machine_count + 5 * ib,
            forall|k: int|
                0 <= k < beacons_fx@.len() ==> (#[trigger] beacons_fx@[k]).0.syms_ok(
                    table@.len() as int,
                ) && beacons_fx@[k].0.metadata.wf() && (beacons_fx@[k].0.metadata.icon
                    matches Option::None) && beacons_fx@[k].0.supported_modules@.len() == 0,
            forall|k: int|
                #![trigger beacons_fx@[k]]
                0 <= k < beacons_fx@.len() ==> gates_from(
                    ls,
                    1 + 8 * machine_count + 5 * k + 4,
                    beacons_fx@[k].1,
                ),
            forall|k1: int, k2: int|
                #![trigger beacons_fx@[k1], beacons_fx@[k2]]
                0 <= k1 < k2 < beacons_fx@.len() ==> beacons_fx@[k1].0.id.0 != beacons_fx@[
                    k2].0.id.0,
        decreases beacon_count - ib,
    {
        let be = match read_beacon(&mut p, table) {
            Ok(v) => v,
            Err(e) => {
                return Err(e);
            },
        };
        if beacon_id_present(&beacons_fx, be.0.id) {
            return Err(Error::SchemaMismatch);
        }
        let ghost bfx_old = beacons_fx@;
        beacons_fx.push(be);
        proof {
            assert forall|k: int|
                #![trigger beacons_fx@[k]]
                0 <= k < beacons_fx@.len() implies gates_from(
                ls,
                1 + 8 * machine_count + 5 * k + 4,
                beacons_fx@[k].1,
            ) by {
                if k < bfx_old.len() {
                    assert(beacons_fx@[k] == bfx_old[k]);
                    assert(gates_from(ls, 1 + 8 * machine_count + 5 * k + 4, bfx_old[k].1));
                } else {
                    assert(beacons_fx@[k] == be);
                    assert(k == ib);
                    assert(crate::decode::effects_shape_ok(
                        ls[1 + 8 * machine_count + 5 * (ib as int) + 4],
                    ));
                    assert(be.1 == crate::decode::spec_effects(
                        ls[1 + 8 * machine_count + 5 * (ib as int) + 4],
                    ));
                }
            }
            assert forall|k1: int, k2: int|
                #![trigger beacons_fx@[k1], beacons_fx@[k2]]
                0 <= k1 < k2 < beacons_fx@.len() implies beacons_fx@[k1].0.id.0 != beacons_fx@[
                k2].0.id.0 by {
                if k2 == beacons_fx@.len() - 1 {
                    assert(beacons_fx@[k1] == bfx_old[k1]);
                    if beacons_fx@[k1].0.id.0 == beacons_fx@[k2].0.id.0 {
                        assert(bfx_old[k1].0.id == beacons_fx@[k2].0.id);
                    }
                } else {
                    assert(beacons_fx@[k1] == bfx_old[k1]);
                    assert(beacons_fx@[k2] == bfx_old[k2]);
                }
            }
        }
        ib += 1;
    }
    // Recipes.
    let mut recipes: Vec<Recipe> = Vec::new();
    let mut ir: usize = 0;
    while ir < recipe_count
        invariant
            ir <= recipe_count,
            p.wf(),
            p.all() == ls,
            table.wf(),
            table@.len() + p.remaining() <= budget,
            budget == old(table)@.len() + ls.len(),
            ls == lines@.map_values(|v: Vec<u8>| v@),
            ls.len() >= 1,
            spec_header(ls[0]) == Option::Some(
                (
                    machine_count as int,
                    beacon_count as int,
                    recipe_count as int,
                    item_count as int,
                    fluid_count as int,
                ),
            ),
            budget <= u32::MAX,
            old(table)@.len() <= table@.len(),
            forall|k: int| 0 <= k < old(table)@.len() ==> table@[k] == old(table)@[k],
            forall|k: int|
                0 <= k < machines_fx@.len() ==> (#[trigger] machines_fx@[k]).0.syms_ok(
                    table@.len() as int,
                ) && machines_fx@[k].0.metadata.wf() && machines_fx@[
                    k].0.supported_modules@.len() == 0,
            forall|k1: int, k2: int|
                #![trigger machines_fx@[k1], machines_fx@[k2]]
                0 <= k1 < k2 < machines_fx@.len() ==> machines_fx@[k1].0.id.0 != machines_fx@[
                    k2].0.id.0,
            machines_fx@.len() == machine_count,
            forall|k: int|
                0 <= k < beacons_fx@.len() ==> (#[trigger] beacons_fx@[k]).0.syms_ok(
                    table@.len() as int,
                ) && beacons_fx@[k].0.metadata.wf() && beacons_fx@[k].0.supported_modules@.len()
                    == 0,
            forall|k1: int, k2: int|
                #![trigger beacons_fx@[k1], beacons_fx@[k2]]
                0 <= k1 < k2 < beacons_fx@.len() ==> beacons_fx@[k1].0.id.0 != beacons_fx@[
                    k2].0.id.0,
            beacons_fx@.len() == beacon_count,
            recipes@.len() == ir,
            forall|k: int| 0 <= k < recipes@.len() ==> (#[trigger] recipes@[k]).syms_ok(
                table@.len() as int,
            ) && recipes@[k].metadata.wf() && (recipes@[k].metadata.icon matches Option::None)
                && recipes@[k].supported_modules@.len() == 0,
            forall|k1: int, k2: int|
                #![trigger recipes@[k1], recipes@[k2]]
                0 <= k1 < k2 < recipes@.len() ==> recipes@[k1].id.0 != recipes@[k2].id.0,
        decreases recipe_count - ir,
    {
        let rec = match read_recipe(&mut p, table) {
            Ok(v) => v,
            Err(e) => {
                return Err(e);
            },
        };
        match index_of_recipe(&recipes, rec.id) {
            Option::Some(_) => {
                return Err(Error::SchemaMismatch);
            },
            Option::None => {},
        }
        let ghost rc_old = recipes@;
        recipes.push(rec);
        proof {
            assert forall|k1: int, k2: int|
                #![trigger recipes@[k1], recipes@[k2]]
                0 <= k1 < k2 < recipes@.len() implies recipes@[k1].id.0 != recipes@[k2].id.0 by {
                if k2 == recipes@.len() - 1 {
                    assert(recipes@[k1] == rc_old[k1]);
                    if recipes@[k1].id.0 == recipes@[k2].id.0 {
                        assert(rc_old[k1].id == recipes@[k2].id);
                        assert(has_recipe_id(rc_old, recipes@[k2].id));
                    }
                } else {
                    assert(recipes@[k1] == rc_old[k1]);
                    assert(recipes@[k2] == rc_old[k2]);
                }
            }
        }
        ir += 1;
    }
    // Items, together with their modules.
    let mut items: Vec<Item> = Vec::new();
    let mut modules: Vec<Module> = Vec::new();
    let mut ii: usize = 0;
    while ii < item_count
        invariant
            ii <= item_count,
            p.wf(),
            p.all() == ls,
            table.wf(),
            table@.len() + p.remaining() <= budget,
            budget == old(table)@.len() + ls.len(),
            ls == lines@.map_values(|v: Vec<u8>| v@),
            ls.len() >= 1,
            spec_header(ls[0]) == Option::Some(
                (
                    machine_count as int,
                    beacon_count as int,
                    recipe_count as int,
                    item_count as int,
                    fluid_count as int,
                ),
            ),
            budget <= u32::MAX,
            old(table)@.len() <= table@.len(),
            forall|k: int| 0 <= k < old(table)@.len() ==> table@[k] == old(table)@[k],
            forall|k: int|
                0 <= k < machines_fx@.len() ==> (#[trigger] machines_fx@[k]).0.syms_ok(
                    table@.len() as int,
                ) && machines_fx@[k].0.metadata.wf() && machines_fx@[
                    k].0.supported_modules@.len() == 0,
            forall|k1: int, k2: int|
                #![trigger machines_fx@[k1], machines_fx@[k2]]
                0 <= k1 < k2 < machines_fx@.len() ==> machines_fx@[k1].0.id.0 != machines_fx@[
                    k2].0.id.0,
            machines_fx@.len() == machine_count,
            forall|k: int|
                0 <= k < beacons_fx@.len() ==> (#[trigger] beacons_fx@[k]).0.syms_ok(
                    table@.len() as int,
                ) && beacons_fx@[k].0.metadata.wf() && beacons_fx@[k].0.supported_modules@.len()
                    == 0,
            forall|k1: int, k2: int|
                #![trigger beacons_fx@[k1], beacons_fx@[k2]]
                0 <= k1 < k2 < beacons_fx@.len() ==> beacons_fx@[k1].0.id.0 != beacons_fx@[
                    k2].0.id.0,
            beacons_fx@.len() == beacon_count,
            recipes@.len() == recipe_count,
            forall|k: int| 0 <= k < recipes@.len() ==> (#[trigger] recipes@[k]).syms_ok(
                table@.len() as int,
            ) && recipes@[k].metadata.wf() && (recipes@[k].metadata.icon matches Option::None),
            forall|k1: int, k2: int|
                #![trigger recipes@[k1], recipes@[k2]]
                0 <= k1 < k2 < recipes@.len() ==> recipes@[k1].id.0 != recipes@[k2].id.0,
            forall|k: int|
                0 <= k < recipes@.len() ==> distinct_syms(
                    (#[trigger] recipes@[k]).supported_modules@.map_values(|m: ItemID| m.0),
                ),
            forall|k: int, t: int|
                0 <= k < recipes@.len() && 0 <= t
                    < recipes@[k].supported_modules@.len() ==> has_item_id(
                    items@,
                    #[trigger] recipes@[k].supported_modules@[t],
                ),
            forall|k: int, t: int|
                0 <= k < recipes@.len() && 0 <= t
                    < recipes@[k].supported_modules@.len() ==> has_module_id(
                    modules@,
                    #[trigger] recipes@[k].supported_modules@[t],
                ),
            items@.len() == ii,
            forall|k: int|
                0 <= k < items@.len() ==> 0 <= (#[trigger] items@[k]).id.0.idx() < table@.len()
                    && items@[k].metadata.syms_ok(table@.len() as int) && items@[k].metadata.wf()
                    && (items@[k].metadata.icon matches Option::None),
            forall|k1: int, k2: int|
                #![trigger items@[k1], items@[k2]]
                0 <= k1 < k2 < items@.len() ==> items@[k1].id.0 != items@[k2].id.0,
            forall|k: int|
                0 <= k < modules@.len() ==> (#[trigger] modules@[k]).modifier_energy.wf()
                    && modules@[k].modifier_speed.wf() && modules@[k].modifier_productivity.wf()
                    && modules@[k].modifier_pollution.wf() && 0 <= modules@[k].id.0.idx()
                    < table@.len() && has_item_id(items@, modules@[k].id),
            forall|k1: int, k2: int|
                #![trigger modules@[k1], modules@[k2]]
                0 <= k1 < k2 < modules@.len() ==> modules@[k1].id.0 != modules@[k2].id.0,
        decreases item_count - ii,
    {
        let ghost items_old = items@;
        let ghost modules_old = modules@;
        let it = match read_item(&mut p, table, &items, &mut recipes, &mut modules) {
            Ok(v) => v,
            Err(e) => {
                return Err(e);
            },
        };
        items.push(it);
        proof {
            assert(items@ =~= items_old.push(it));
            assert forall|k1: int, k2: int|
                #![trigger items@[k1], items@[k2]]
                0 <= k1 < k2 < items@.len() implies items@[k1].id.0 != items@[k2].id.0 by {
                if k2 == items@.len() - 1 {
                    assert(items@[k1] == items_old[k1]);
                    if items@[k1].id.0 == it.id.0 {
                        assert(items_old[k1].id == it.id);
                        assert(has_item_id(items_old, it.id));
                    }
                } else {
                    assert(items@[k1] == items_old[k1]);
                    assert(items@[k2] == items_old[k2]);
                }
            }
            assert forall|k: int|
                0 <= k < modules@.len() implies (#[trigger] modules@[k]).modifier_energy.wf()
                && modules@[k].modifier_speed.wf() && modules@[k].modifier_productivity.wf()
                && modules@[k].modifier_pollution.wf() && 0 <= modules@[k].id.0.idx()
                < table@.len() && has_item_id(items@, modules@[k].id) by {
                if modules@ == modules_old || k < modules_old.len() {
                    assert(modules@[k] == modules_old[k]);
                    assert(has_item_id(items_old, modules_old[k].id));
                    let w = choose|w: int|
                        #![trigger items_old[w]]
                        0 <= w < items_old.len() && items_old[w].id == modules_old[k].id;
                    assert(items@[w] == items_old[w]);
                } else {
                    assert(modules@[k] == modules@.last());
                    assert(modules@.last().id == it.id);
                    assert(items@[items@.len() - 1] == it);
                }
            }
            assert forall|k1: int, k2: int|
                #![trigger modules@[k1], modules@[k2]]
                0 <= k1 < k2 < modules@.len() implies modules@[k1].id.0 != modules@[k2].id.0 by {
                if modules@ == modules_old {
                } else {
                    if k2 < modules_old.len() {
                        assert(modules@[k1] == modules@.subrange(0, modules_old.len() as int)[k1]);
                        assert(modules@[k2] == modules@.subrange(0, modules_old.len() as int)[k2]);
                    } else {
                        assert(modules@[k1] == modules@.subrange(0, modules_old.len() as int)[k1]);
                        assert(modules@[k1] == modules_old[k1]);
                        assert(modules@[k2] == modules@.last());
                        assert(modules@[k2].id == it.id);
                        if modules@[k1].id.0 == it.id.0 {
                            assert(modules_old[k1].id == it.id);
                            assert(has_item_id(items_old, it.id));
                        }
                    }
                }
            }
        }
        ii += 1;
    }
    // Fluids.
    let mut fluids: Vec<Fluid> = Vec::new();
    let mut ifl: usize = 0;
    while ifl < fluid_count
        invariant
            ifl <= fluid_count,
            p.wf(),
            p.all() == ls,
            table.wf(),
            table@.len() + p.remaining() <= budget,
            budget == old(table)@.len() + ls.len(),
            ls == lines@.map_values(|v: Vec<u8>| v@),
            ls.len() >= 1,
            spec_header(ls[0]) == Option::Some(
                (
                    machine_count as int,
                    beacon_count as int,
                    recipe_count as int,
                    item_count as int,
                    fluid_count as int,
                ),
            ),
            budget <= u32::MAX,
            old(table)@.len() <= table@.len(),
            forall|k: int| 0 <= k < old(table)@.len() ==> table@[k] == old(table)@[k],
            forall|k: int|
                0 <= k < machines_fx@.len() ==> (#[trigger] machines_fx@[k]).0.syms_ok(
                    table@.len() as int,
                ) && machines_fx@[k].0.metadata.wf() && machines_fx@[
                    k].0.supported_modules@.len() == 0,
            forall|k1: int, k2: int|
                #![trigger machines_fx@[k1], machines_fx@[k2]]
                0 <= k1 < k2 < machines_fx@.len() ==> machines_fx@[k1].0.id.0 != machines_fx@[
                    k2].0.id.0,
            machines_fx@.len() == machine_count,
            forall|k: int|
                0 <= k < beacons_fx@.len() ==> (#[trigger] beacons_fx@[k]).0.syms_ok(
                    table@.len() as int,
                ) && beacons_fx@[k].0.metadata.wf() && beacons_fx@[k].0.supported_modules@.len()
                    == 0,
            forall|k1: int, k2: int|
                #![trigger beacons_fx@[k1], beacons_fx@[k2]]
                0 <= k1 < k2 < beacons_fx@.len() ==> beacons_fx@[k1].0.id.0 != beacons_fx@[
                    k2].0.id.0,
            beacons_fx@.len() == beacon_count,
            recipes@.len() == recipe_count,
            forall|k: int| 0 <= k < recipes@.len() ==> (#[trigger] recipes@[k]).syms_ok(
                table@.len() as int,
            ) && recipes@[k].metadata.wf(),
            forall|k1: int, k2: int|
                #![trigger recipes@[k1], recipes@[k2]]
                0 <= k1 < k2 < recipes@.len() ==> recipes@[k1].id.0 != recipes@[k2].id.0,
            forall|k: int|
                0 <= k < recipes@.len() ==> distinct_syms(
                    (#[trigger] recipes@[k]).supported_modules@.map_values(|m: ItemID| m.0),
                ),
            items@.len() == item_count,
            forall|k: int|
                0 <= k < items@.len() ==> 0 <= (#[trigger] items@[k]).id.0.idx() < table@.len()
                    && items@[k].metadata.syms_ok(table@.len() as int) && items@[k].metadata.wf(),
            forall|k1: int, k2: int|
                #![trigger items@[k1], items@[k2]]
                0 <= k1 < k2 < items@.len() ==> items@[k1].id.0 != items@[k2].id.0,
            forall|k: int|
                0 <= k < modules@.len() ==> (#[trigger] modules@[k]).modifier_energy.wf()
                    && modules@[k].modifier_speed.wf() && modules@[k].modifier_productivity.wf()
                    && modules@[k].modifier_pollution.wf() && 0 <= modules@[k].id.0.idx()
                    < table@.len(),
            forall|k1: int, k2: int|
                #![trigger modules@[k1], modules@[k2]]
                0 <= k1 < k2 < modules@.len() ==> modules@[k1].id.0 != modules@[k2].id.0,
            fluids@.len() == ifl,
            forall|k: int|
                0 <= k < fluids@.len() ==> 0 <= (#[trigger] fluids@[k]).id.0.idx() < table@.len()
                    && fluids@[k].metadata.syms_ok(table@.len() as int) && fluids@[k].metadata.wf()
                    && (fluids@[k].metadata.icon matches Option::None),
            forall|k1: int, k2: int|
                #![trigger fluids@[k1], fluids@[k2]]
                0 <= k1 < k2 < fluids@.len() ==> fluids@[k1].id.0 != fluids@[k2].id.0,
        decreases fluid_count - ifl,
    {
        let fl = match read_fluid(&mut p, table) {
            Ok(v) => v,
            Err(e) => {
                return Err(e);
            },
        };
        if fluid_id_present(&fluids, fl.id) {
            return Err(Error::SchemaMismatch);
        }
        let ghost fl_old = fluids@;
        fluids.push(fl);
        proof {
            assert forall|k1: int, k2: int|
                #![trigger fluids@[k1], fluids@[k2]]
                0 <= k1 < k2 < fluids@.len() implies fluids@[k1].id.0 != fluids@[k2].id.0 by {
                if k2 == fluids@.len() - 1 {
                    assert(fluids@[k1] == fl_old[k1]);
                    if fluids@[k1].id.0 == fluids@[k2].id.0 {
                        assert(fl_old[k1].id == fluids@[k2].id);
                    }
                } else {
                    assert(fluids@[k1] == fl_old[k1]);
                    assert(fluids@[k2] == fl_old[k2]);
                }
            }
        }
        ifl += 1;
    }
    // Cross-reference: compute each machine's and beacon's supported
    // modules from its transient effect gates, then drop the gates.
    let ghost modules_final = modules@;
    let mut machines: Vec<Machine> = Vec::new();
    let ghost mfx_all = machines_fx@;
    let mut im: usize = 0;
    let mn = machines_fx.len();
    while im < mn
        invariant
            im <= mn,
            mn == machines_fx@.len(),
            machines_fx@ == mfx_all,
            modules@ == modules_final,
            forall|k1: int, k2: int|
                #![trigger modules@[k1], modules@[k2]]
                0 <= k1 < k2 < modules@.len() ==> modules@[k1].id.0 != modules@[k2].id.0,
            table.wf(),
            forall|k: int|
                0 <= k < modules@.len() ==> (#[trigger] modules@[k]).modifier_energy.wf()
                    && modules@[k].modifier_speed.wf() && modules@[k].modifier_productivity.wf()
                    && modules@[k].modifier_pollution.wf() && 0 <= modules@[k].id.0.idx()
                    < table@.len(),
            forall|k: int|
                0 <= k < mfx_all.len() ==> (#[trigger] mfx_all[k]).0.syms_ok(table@.len() as int)
                    && mfx_all[k].0.metadata.wf(),
            machines@.len() == im,
            forall|k: int|
                0 <= k < machines@.len() ==> (#[trigger] machines@[k]).id == mfx_all[k].0.id && machines@[
                    k].metadata == mfx_all[k].0.metadata && machines@[k].syms_ok(
                    table@.len() as int,
                ) && machines@[k].metadata.wf(),
            forall|k: int|
                #![trigger machines@[k]]
                0 <= k < machines@.len() ==> supports_match(
                    machines@[k].supported_modules@,
                    modules@,
                    mfx_all[k].1,
                ) && distinct_syms(machines@[k].supported_modules@.map_values(|m: ItemID| m.0)),
        decreases mn - im,
    {
        let pair = &machines_fx[im];
        let supported_modules = get_allowed_modules(&modules, &pair.1);
        proof {
            lemma_pairwise_to_distinct_modules(modules@);
            lemma_allowed_supports_match(modules@, pair.1, supported_modules@);
        }
        let m = &pair.0;
        let machine = Machine {
            id: m.id,
            metadata: m.metadata,
            crafting_speed: m.crafting_speed.duplicate(),
            energy_consumption: m.energy_consumption.duplicate(),
            energy_drain: m.energy_drain.duplicate(),
            module_slots: m.module_slots.duplicate(),
            supported_modules,
        };
        proof {
            let sup = machine.supported_modules@;
            assert forall|t: int|
                0 <= t < sup.len() implies 0 <= (#[trigger] sup[t]).0.idx() < table@.len() by {
                assert(came_from_allowed(modules@, pair.1, sup[t]));
                let w = choose|w: int|
                    #![trigger modules@[w]]
                    0 <= w < modules@.len() && modules@[w].id == sup[t] && module_allowed(
                        modules@[w],
                        pair.1,
                    );
                assert(0 <= modules@[w].id.0.idx() < table@.len());
            }
        }
        machines.push(machine);
        im += 1;
    }
    let mut beacons: Vec<Beacon> = Vec::new();
    let ghost bfx_all = beacons_fx@;
    let mut ibx: usize = 0;
    let bn = beacons_fx.len();
    while ibx < bn
        invariant
            ibx <= bn,
            bn == beacons_fx@.len(),
            beacons_fx@ == bfx_all,
            modules@ == modules_final,
            forall|k1: int, k2: int|
                #![trigger modules@[k1], modules@[k2]]
                0 <= k1 < k2 < modules@.len() ==> modules@[k1].id.0 != modules@[k2].id.0,
            table.wf(),
            forall|k: int|
                0 <= k < modules@.len() ==> (#[trigger] modules@[k]).modifier_energy.wf()
                    && modules@[k].modifier_speed.wf() && modules@[k].modifier_productivity.wf()
                    && modules@[k].modifier_pollution.wf() && 0 <= modules@[k].id.0.idx()
                    < table@.len(),
            forall|k: int|
                0 <= k < bfx_all.len() ==> (#[trigger] bfx_all[k]).0.syms_ok(table@.len() as int)
                    && bfx_all[k].0.metadata.wf(),
            beacons@.len() == ibx,
            forall|k: int|
                0 <= k < beacons@.len() ==> (#[trigger] beacons@[k]).id == bfx_all[k].0.id && beacons@[
                    k].metadata == bfx_all[k].0.metadata && beacons@[k].syms_ok(
                    table@.len() as int,
                ) && beacons@[k].metadata.wf(),
            forall|k: int|
                #![trigger beacons@[k]]
                0 <= k < beacons@.len() ==> supports_match(
                    beacons@[k].supported_modules@,
                    modules@,
                    bfx_all[k].1,
                ) && distinct_syms(beacons@[k].supported_modules@.map_values(|m: ItemID| m.0)),
        decreases bn - ibx,
    {
        let pair = &beacons_fx[ibx];
        let supported_modules = get_allowed_modules(&modules, &pair.1);
        proof {
            lemma_pairwise_to_distinct_modules(modules@);
            lemma_allowed_supports_match(modules@, pair.1, supported_modules@);
        }
        let b = &pair.0;
        let beacon = Beacon {
            id: b.id,
            metadata: b.metadata,
            distribution_effectivity: b.distribution_effectivity.duplicate(),
            supported_modules,
        };
        proof {
            let sup = beacon.supported_modules@;
            assert forall|t: int|
                0 <= t < sup.len() implies 0 <= (#[trigger] sup[t]).0.idx() < table@.len() by {
                assert(came_from_allowed(modules@, pair.1, sup[t]));
                let w = choose|w: int|
                    #![trigger modules@[w]]
                    0 <= w < modules@.len() && modules@[w].id == sup[t] && module_allowed(
                        modules@[w],
                        pair.1,
                    );
                assert(0 <= modules@[w].id.0.idx() < table@.len());
            }
        }
        beacons.push(beacon);
        ibx += 1;
    }
    let gd = GameData {
        tile_metadata: Option::None,
        items,
        fluids,
        recipes,
        machines,
        beacons,
        modules,
    };
    proof {
        lemma_pairwise_to_distinct_items(gd.items@);
        lemma_pairwise_to_distinct_fluids(gd.fluids@);
        lemma_pairwise_to_distinct_recipes(gd.recipes@);
        lemma_pairwise_to_distinct_machines(gd.machines@, mfx_all);
        lemma_pairwise_to_distinct_beacons(gd.beacons@, bfx_all);
        lemma_pairwise_to_distinct_modules(gd.modules@);
        assert forall|k: int|
            0 <= k < gd.machines@.len() implies ((#[trigger] gd.machines@[k]).metadata.icon
            matches Option::None) by {
            assert(gd.machines@[k].metadata == mfx_all[k].0.metadata);
            assert(machines_fx@[k].0.metadata.icon matches Option::None);
        }
        assert forall|k: int|
            0 <= k < gd.beacons@.len() implies ((#[trigger] gd.beacons@[k]).metadata.icon
            matches Option::None) by {
            assert(gd.beacons@[k].metadata == bfx_all[k].0.metadata);
            assert(beacons_fx@[k].0.metadata.icon matches Option::None);
        }
        assert forall|k: int|
            #![trigger gd.machines@[k]]
            0 <= k < gd.machines@.len() implies supports_from_line(
            gd.machines@[k].supported_modules@,
            gd.modules@,
            ls,
            8 * k + 8,
        ) && distinct_syms(gd.machines@[k].supported_modules@.map_values(|m: ItemID| m.0)) by {
            assert(gates_from(ls, 8 * k + 8, machines_fx@[k].1));
            assert(supports_match(gd.machines@[k].supported_modules@, gd.modules@, mfx_all[k].1));
        }
        assert(gd.machines@.len() == machine_count);
        assert forall|k: int|
            #![trigger gd.beacons@[k]]
            0 <= k < gd.beacons@.len() implies supports_from_line(
            gd.beacons@[k].supported_modules@,
            gd.modules@,
            ls,
            1 + 8 * gd.machines@.len() + 5 * k + 4,
        ) && distinct_syms(gd.beacons@[k].supported_modules@.map_values(|m: ItemID| m.0)) by {
            assert(gates_from(ls, 1 + 8 * machine_count + 5 * k + 4, beacons_fx@[k].1));
            assert(supports_match(gd.beacons@[k].supported_modules@, gd.modules@, bfx_all[k].1));
        }
    }
    Ok(gd)
}

/// Pairwise-distinct item IDs give distinct symbol sequences.
proof fn lemma_pairwise_to_distinct_items(items: Seq<Item>)
    requires
        forall|k1: int, k2: int|
            #![trigger items[k1], items[k2]]
            0 <= k1 < k2 < items.len() ==> items[k1].id.0 != items[k2].id.0,
    ensures
        distinct_syms(items.map_values(|e: Item| e.id.0)),
{
    let ms = items.map_values(|e: Item| e.id.0);
    assert forall|k1: int, k2: int| 0 <= k1 < k2 < ms.len() implies ms[k1] != ms[k2] by {
        assert(ms[k1] == items[k1].id.0 && ms[k2] == items[k2].id.0);
    }
}

proof fn lemma_pairwise_to_distinct_fluids(fluids: Seq<Fluid>)
    requires
        forall|k1: int, k2: int|
            #![trigger fluids[k1], fluids[k2]]
            0 <= k1 < k2 < fluids.len() ==> fluids[k1].id.0 != fluids[k2].id.0,
    ensures
        distinct_syms(fluids.map_values(|e: Fluid| e.id.0)),
{
    let ms = fluids.map_values(|e: Fluid| e.id.0);
    assert forall|k1: int, k2: int| 0 <= k1 < k2 < ms.len() implies ms[k1] != ms[k2] by {
        assert(ms[k1] == fluids[k1].id.0 && ms[k2] == fluids[k2].id.0);
    }
}

proof fn lemma_pairwise_to_distinct_recipes(recipes: Seq<Recipe>)
    requires
        forall|k1: int, k2: int|
            #![trigger recipes[k1], recipes[k2]]
            0 <= k1 < k2 < recipes.len() ==> recipes[k1].id.0 != recipes[k2].id.0,
    ensures
        distinct_syms(recipes.map_values(|e: Recipe| e.id.0)),
{
    let ms = recipes.map_values(|e: Recipe| e.id.0);
    assert forall|k1: int, k2: int| 0 <= k1 < k2 < ms.len() implies ms[k1] != ms[k2] by {
        assert(ms[k1] == recipes[k1].id.0 && ms[k2] == recipes[k2].id.0);
    }
}

proof fn lemma_pairwise_to_distinct_machines(machines: Seq<Machine>, mfx: Seq<(Machine, AllowedEffects)>)
    requires
        machines.len() == mfx.len(),
        forall|k: int|
            0 <= k < machines.len() ==> (#[trigger] machines[k]).id == mfx[k].0.id,
        forall|k1: int, k2: int|
            #![trigger mfx[k1], mfx[k2]]
            0 <= k1 < k2 < mfx.len() ==> mfx[k1].0.id.0 != mfx[k2].0.id.0,
    ensures
        distinct_syms(machines.map_values(|e: Machine| e.id.0)),
{
    let ms = machines.map_values(|e: Machine| e.id.0);
    assert forall|k1: int, k2: int| 0 <= k1 < k2 < ms.len() implies ms[k1] != ms[k2] by {
        assert(ms[k1] == machines[k1].id.0 && ms[k2] == machines[k2].id.0);
        assert(mfx[k1].0.id.0 != mfx[k2].0.id.0);
    }
}

proof fn lemma_pairwise_to_distinct_beacons(beacons: Seq<Beacon>, bfx: Seq<(Beacon, AllowedEffects)>)
    requires
        beacons.len() == bfx.len(),
        forall|k: int| 0 <= k < beacons.len() ==> (#[trigger] beacons[k]).id == bfx[k].0.id,
        forall|k1: int, k2: int|
            #![trigger bfx[k1], bfx[k2]]
            0 <= k1 < k2 < bfx.len() ==> bfx[k1].0.id.0 != bfx[k2].0.id.0,
    ensures
        distinct_syms(beacons.map_values(|e: Beacon| e.id.0)),
{
    let ms = beacons.map_values(|e: Beacon| e.id.0);
    assert forall|k1: int, k2: int| 0 <= k1 < k2 < ms.len() implies ms[k1] != ms[k2] by {
        assert(ms[k1] == beacons[k1].id.0 && ms[k2] == beacons[k2].id.0);
        assert(bfx[k1].0.id.0 != bfx[k2].0.id.0);
    }
}

proof fn lemma_pairwise_to_distinct_modules(modules: Seq<Module>)
    requires
        forall|k1: int, k2: int|
            #![trigger modules[k1], modules[k2]]
            0 <= k1 < k2 < modules.len() ==> modules[k1].id.0 != modules[k2].id.0,
    ensures
        distinct_syms(modules.map_values(|e: Module| e.id.0)),
{
    let ms = modules.map_values(|e: Module| e.id.0);
    assert forall|k1: int, k2: int| 0 <= k1 < k2 < ms.len() implies ms[k1] != ms[k2] by {
        assert(ms[k1] == modules[k1].id.0 && ms[k2] == modules[k2].id.0);
    }
}

} // verus!
