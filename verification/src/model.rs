//! The typed domain model of the game's production economy.
//!
//! Every identifier is a [`Str`] of one symbol table, wrapped in a
//! kind-specific ID type.  Entity identity is the ID alone: each
//! collection is an explicit vector whose well-formedness demands
//! pairwise-distinct IDs, so an ID is a lookup key by construction
//! rather than by an equality convention.

use vstd::prelude::*;
use crate::numbers::{Int, Ratio};
use crate::symbols::Str;

verus! {

/// An item identifier.
#[derive(Clone, Copy, PartialEq, Eq, Structural, Debug)]
pub struct ItemID(pub Str);

/// A fluid identifier.
#[derive(Clone, Copy, PartialEq, Eq, Structural, Debug)]
pub struct FluidID(pub Str);

/// A recipe identifier.
#[derive(Clone, Copy, PartialEq, Eq, Structural, Debug)]
pub struct RecipeID(pub Str);

/// A crafting-machine identifier.
#[derive(Clone, Copy, PartialEq, Eq, Structural, Debug)]
pub struct MachineID(pub Str);

/// A beacon identifier.
#[derive(Clone, Copy, PartialEq, Eq, Structural, Debug)]
pub struct BeaconID(pub Str);

/// An identifier of any of the five entity kinds.  Modules reuse the
/// item ID space and have no kind of their own.
#[derive(Clone, Copy, PartialEq, Eq, Structural, Debug)]
pub enum ID {
    Item(ItemID),
    Fluid(FluidID),
    Recipe(RecipeID),
    Machine(MachineID),
    Beacon(BeaconID),
}

impl ID {
    /// The underlying symbol, whatever the kind.
    pub fn sym(&self) -> (s: Str)
        ensures
            s == self.spec_sym(),
    {
        match *self {
            ID::Item(id) => id.0,
            ID::Fluid(id) => id.0,
            ID::Recipe(id) => id.0,
            ID::Machine(id) => id.0,
            ID::Beacon(id) => id.0,
        }
    }

    pub open spec fn spec_sym(&self) -> Str {
        match *self {
            ID::Item(id) => id.0,
            ID::Fluid(id) => id.0,
            ID::Recipe(id) => id.0,
            ID::Machine(id) => id.0,
            ID::Beacon(id) => id.0,
        }
    }

    /// The identifier's text, resolved in its symbol table.
    pub fn str<'a>(&self, table: &'a crate::symbols::SymbolTable) -> (t: &'a Vec<u8>)
        requires
            table.contains_sym(self.spec_sym()),
        ensures
            t@ == table@[self.spec_sym().idx()],
    {
        table.resolve(self.sym())
    }
}

/// A slot in the icon atlas: a 1-based dense tile index.  The pixel
/// position is always derived from the index and the tile geometry,
/// never stored.
#[derive(Clone, Copy, PartialEq, Eq, Structural, Debug)]
pub struct Icon(u32);

impl Icon {
    /// The stored 1-based slot, always positive.
    pub closed spec fn slot(&self) -> int {
        self.0 as int
    }

    pub open spec fn wf(&self) -> bool {
        self.slot() >= 1
    }

    /// Wraps a 0-based atlas index.
    pub fn new(idx: usize) -> (icon: Icon)
        requires
            idx < u32::MAX,
        ensures
            icon.wf(),
            icon.slot() == idx + 1,
    {
        Icon((idx as u32) + 1)
    }

    /// The 0-based atlas index.
    pub fn index(&self) -> (idx: usize)
        requires
            self.wf(),
        ensures
            idx + 1 == self.slot(),
    {
        (self.0 as usize) - 1
    }

    /// The pixel position of this icon's tile inside the atlas:
    /// `x = (index % columns) * tile_w`, `y = (index / columns) * tile_h`,
    /// with `columns = atlas_width / tile_w`.
    pub fn position(&self, tile_metadata: &TileMetadata) -> (pos: (u32, u32))
        requires
            self.wf(),
            tile_metadata.tile_size.0 >= 1,
            tile_metadata.tile_size.1 >= 1,
            tile_metadata.image_size.0 >= tile_metadata.tile_size.0,
            ({
                let columns = tile_metadata.image_size.0 as int / tile_metadata.tile_size.0 as int;
                &&& ((self.slot() - 1) % columns) * tile_metadata.tile_size.0 <= u32::MAX
                &&& ((self.slot() - 1) / columns) * tile_metadata.tile_size.1 <= u32::MAX
            }),
        ensures
            ({
                let columns = tile_metadata.image_size.0 as int / tile_metadata.tile_size.0 as int;
                &&& pos.0 == ((self.slot() - 1) % columns) * tile_metadata.tile_size.0
                &&& pos.1 == ((self.slot() - 1) / columns) * tile_metadata.tile_size.1
            }),
    {
        let columns = tile_metadata.image_size.0 / tile_metadata.tile_size.0;
        proof {
            vstd::arithmetic::div_mod::lemma_div_non_zero(
                tile_metadata.image_size.0 as int,
                tile_metadata.tile_size.0 as int,
            );
            assert(columns >= 1);
        }
        let idx = self.index() as u32;
        let x = idx % columns;
        let y = idx / columns;
        proof {
            vstd::arithmetic::div_mod::lemma_mod_bound(idx as int, columns as int);
            vstd::arithmetic::div_mod::lemma_div_pos_is_pos(idx as int, columns as int);
            assert((idx as int / columns as int) * tile_metadata.tile_size.1 <= u32::MAX);
            assert((idx as int % columns as int) * tile_metadata.tile_size.0 <= u32::MAX);
        }
        (x * tile_metadata.tile_size.0, y * tile_metadata.tile_size.1)
    }
}

/// Display data shared by every entity.  The icon is attached only by
/// the atlas stage and is absent before it.
#[derive(Clone, Copy, PartialEq, Eq, Structural, Debug)]
pub struct Metadata {
    pub localised_name: Str,
    pub localised_description: Option<Str>,
    pub icon: Option<Icon>,
}

impl Metadata {
    pub open spec fn wf(&self) -> bool {
        match self.icon {
            Option::Some(icon) => icon.wf(),
            Option::None => true,
        }
    }

    /// All symbols are valid in a table of `tlen` entries.
    pub open spec fn syms_ok(&self, tlen: int) -> bool {
        &&& 0 <= self.localised_name.idx() < tlen
        &&& match self.localised_description {
            Option::Some(sym) => 0 <= sym.idx() < tlen,
            Option::None => true,
        }
    }
}

/// Geometry of the finished icon atlas.
#[derive(Clone, Copy, Debug)]
pub struct TileMetadata {
    pub tile_size: (u32, u32),
    pub tile_count: u32,
    pub image_size: (u32, u32),
}

pub struct Item {
    pub id: ItemID,
    pub metadata: Metadata,
}

pub struct Fluid {
    pub id: FluidID,
    pub metadata: Metadata,
}

/// One input of a recipe: an item, or a fluid with optional
/// temperature bounds.
pub enum IngredientResource {
    Item { id: ItemID },
    Fluid { id: FluidID, minimum_temperature: Option<Ratio>, maximum_temperature: Option<Ratio> },
}

pub struct Ingredient {
    pub resource: IngredientResource,
    pub amount: Ratio,
    pub catalyst_amount: Ratio,
}

/// One output resource of a recipe.
pub enum ProductResource {
    Item { id: ItemID },
    Fluid { id: FluidID, temperature: Ratio },
}

/// How much of a product a recipe yields.
pub enum ProductAmount {
    Fixed { amount: Ratio, catalyst_amount: Ratio },
    Probability { amount_min: Ratio, amount_max: Ratio, probability: Ratio },
}

pub struct Product {
    pub resource: ProductResource,
    pub amount: ProductAmount,
}

pub struct Recipe {
    pub id: RecipeID,
    pub metadata: Metadata,
    pub time: Ratio,
    pub ingredients: Vec<Ingredient>,
    pub products: Vec<Product>,
    pub crafted_in: Vec<MachineID>,
    pub supported_modules: Vec<ItemID>,
}

pub struct Machine {
    pub id: MachineID,
    pub metadata: Metadata,
    pub crafting_speed: Ratio,
    pub energy_consumption: Ratio,
    pub energy_drain: Ratio,
    pub module_slots: Int,
    pub supported_modules: Vec<ItemID>,
}

pub struct Beacon {
    pub id: BeaconID,
    pub metadata: Metadata,
    pub distribution_effectivity: Ratio,
    pub supported_modules: Vec<ItemID>,
}

/// An upgrade module: an item with four exact effect modifiers.
pub struct Module {
    pub id: ItemID,
    pub modifier_energy: Ratio,
    pub modifier_speed: Ratio,
    pub modifier_productivity: Ratio,
    pub modifier_pollution: Ratio,
}

/// The aggregate root: the five entity collections, the modules, and
/// the atlas geometry once icons have been processed.
pub struct GameData {
    pub tile_metadata: Option<TileMetadata>,
    pub items: Vec<Item>,
    pub fluids: Vec<Fluid>,
    pub recipes: Vec<Recipe>,
    pub machines: Vec<Machine>,
    pub beacons: Vec<Beacon>,
    pub modules: Vec<Module>,
}

impl Ingredient {
    pub open spec fn syms_ok(&self, tlen: int) -> bool {
        match self.resource {
            IngredientResource::Item { id } => 0 <= id.0.idx() < tlen,
            IngredientResource::Fluid { id, .. } => 0 <= id.0.idx() < tlen,
        }
    }
}

impl Product {
    pub open spec fn syms_ok(&self, tlen: int) -> bool {
        match self.resource {
            ProductResource::Item { id } => 0 <= id.0.idx() < tlen,
            ProductResource::Fluid { id, .. } => 0 <= id.0.idx() < tlen,
        }
    }
}

impl Recipe {
    pub open spec fn syms_ok(&self, tlen: int) -> bool {
        &&& 0 <= self.id.0.idx() < tlen
        &&& self.metadata.syms_ok(tlen)
        &&& forall|i: int| 0 <= i < self.ingredients@.len() ==> (#[trigger] self.ingredients@[i]).syms_ok(tlen)
        &&& forall|i: int| 0 <= i < self.products@.len() ==> (#[trigger] self.products@[i]).syms_ok(tlen)
        &&& forall|i: int|
            0 <= i < self.crafted_in@.len() ==> 0 <= (#[trigger] self.crafted_in@[i]).0.idx() < tlen
        &&& forall|i: int|
            0 <= i < self.supported_modules@.len() ==> 0 <= (
            #[trigger] self.supported_modules@[i]).0.idx() < tlen
    }
}

impl Machine {
    pub open spec fn syms_ok(&self, tlen: int) -> bool {
        &&& 0 <= self.id.0.idx() < tlen
        &&& self.metadata.syms_ok(tlen)
        &&& forall|i: int|
            0 <= i < self.supported_modules@.len() ==> 0 <= (
            #[trigger] self.supported_modules@[i]).0.idx() < tlen
    }
}

impl Beacon {
    pub open spec fn syms_ok(&self, tlen: int) -> bool {
        &&& 0 <= self.id.0.idx() < tlen
        &&& self.metadata.syms_ok(tlen)
        &&& forall|i: int|
            0 <= i < self.supported_modules@.len() ==> 0 <= (
            #[trigger] self.supported_modules@[i]).0.idx() < tlen
    }
}

/// Pairwise-distinct symbols.
pub open spec fn distinct_syms(s: Seq<Str>) -> bool {
    forall|i: int, j: int| 0 <= i < j < s.len() ==> s[i] != s[j]
}

impl GameData {
    pub open spec fn item_syms(&self) -> Seq<Str> {
        self.items@.map_values(|e: Item| e.id.0)
    }

    pub open spec fn fluid_syms(&self) -> Seq<Str> {
        self.fluids@.map_values(|e: Fluid| e.id.0)
    }

    pub open spec fn recipe_syms(&self) -> Seq<Str> {
        self.recipes@.map_values(|e: Recipe| e.id.0)
    }

    pub open spec fn machine_syms(&self) -> Seq<Str> {
        self.machines@.map_values(|e: Machine| e.id.0)
    }

    pub open spec fn beacon_syms(&self) -> Seq<Str> {
        self.beacons@.map_values(|e: Beacon| e.id.0)
    }

    pub open spec fn module_syms(&self) -> Seq<Str> {
        self.modules@.map_values(|e: Module| e.id.0)
    }

    /// No two entities of one collection share an ID.
    pub open spec fn wf(&self) -> bool {
        &&& distinct_syms(self.item_syms())
        &&& distinct_syms(self.fluid_syms())
        &&& distinct_syms(self.recipe_syms())
        &&& distinct_syms(self.machine_syms())
        &&& distinct_syms(self.beacon_syms())
        &&& distinct_syms(self.module_syms())
    }

    /// Every symbol of the model is valid in a table of `tlen`
    /// entries.
    pub open spec fn syms_ok(&self, tlen: int) -> bool {
        &&& forall|i: int|
            0 <= i < self.items@.len() ==> 0 <= #[trigger] self.items@[i].id.0.idx() < tlen
                && self.items@[i].metadata.syms_ok(tlen)
        &&& forall|i: int|
            0 <= i < self.fluids@.len() ==> 0 <= #[trigger] self.fluids@[i].id.0.idx() < tlen
                && self.fluids@[i].metadata.syms_ok(tlen)
        &&& forall|i: int| 0 <= i < self.recipes@.len() ==> #[trigger] self.recipes@[i].syms_ok(
            tlen,
        )
        &&& forall|i: int| 0 <= i < self.machines@.len() ==> #[trigger] self.machines@[i].syms_ok(
            tlen,
        )
        &&& forall|i: int| 0 <= i < self.beacons@.len() ==> #[trigger] self.beacons@[i].syms_ok(
            tlen,
        )
        &&& forall|i: int|
            0 <= i < self.modules@.len() ==> 0 <= #[trigger] self.modules@[i].id.0.idx() < tlen
    }

    /// Resolves an item ID inside this model.
    pub fn get_item(&self, id: ItemID) -> (r: Option<&Item>)
        ensures
            match r {
                Option::Some(e) => exists|i: int|
                    0 <= i < self.items@.len() && self.items@[i].id == id && e == &self.items@[i],
                Option::None => forall|i: int|
                    0 <= i < self.items@.len() ==> self.items@[i].id != id,
            },
    {
        let n = self.items.len();
        let mut i: usize = 0;
        while i < n
            invariant
                i <= n,
                n == self.items@.len(),
                forall|j: int| 0 <= j < i ==> self.items@[j].id != id,
            decreases n - i,
        {
            if self.items[i].id == id {
                return Option::Some(&self.items[i]);
            }
            i += 1;
        }
        Option::None
    }

    /// Resolves a fluid ID inside this model.
    pub fn get_fluid(&self, id: FluidID) -> (r: Option<&Fluid>)
        ensures
            match r {
                Option::Some(e) => exists|i: int|
                    0 <= i < self.fluids@.len() && self.fluids@[i].id == id && e
                        == &self.fluids@[i],
                Option::None => forall|i: int|
                    0 <= i < self.fluids@.len() ==> self.fluids@[i].id != id,
            },
    {
        let n = self.fluids.len();
        let mut i: usize = 0;
        while i < n
            invariant
                i <= n,
                n == self.fluids@.len(),
                forall|j: int| 0 <= j < i ==> self.fluids@[j].id != id,
            decreases n - i,
        {
            if self.fluids[i].id == id {
                return Option::Some(&self.fluids[i]);
            }
            i += 1;
        }
        Option::None
    }

    /// Resolves a recipe ID inside this model.
    pub fn get_recipe(&self, id: RecipeID) -> (r: Option<&Recipe>)
        ensures
            match r {
                Option::Some(e) => exists|i: int|
                    0 <= i < self.recipes@.len() && self.recipes@[i].id == id && e
                        == &self.recipes@[i],
                Option::None => forall|i: int|
                    0 <= i < self.recipes@.len() ==> self.recipes@[i].id != id,
            },
    {
        let n = self.recipes.len();
        let mut i: usize = 0;
        while i < n
            invariant
                i <= n,
                n == self.recipes@.len(),
                forall|j: int| 0 <= j < i ==> self.recipes@[j].id != id,
            decreases n - i,
        {
            if self.recipes[i].id == id {
                return Option::Some(&self.recipes[i]);
            }
            i += 1;
        }
        Option::None
    }

    /// Resolves a machine ID inside this model.
    pub fn get_machine(&self, id: MachineID) -> (r: Option<&Machine>)
        ensures
            match r {
                Option::Some(e) => exists|i: int|
                    0 <= i < self.machines@.len() && self.machines@[i].id == id && e
                        == &self.machines@[i],
                Option::None => forall|i: int|
                    0 <= i < self.machines@.len() ==> self.machines@[i].id != id,
            },
    {
        let n = self.machines.len();
        let mut i: usize = 0;
        while i < n
            invariant
                i <= n,
                n == self.machines@.len(),
                forall|j: int| 0 <= j < i ==> self.machines@[j].id != id,
            decreases n - i,
        {
            if self.machines[i].id == id {
                return Option::Some(&self.machines[i]);
            }
            i += 1;
        }
        Option::None
    }

    /// Resolves a beacon ID inside this model.
    pub fn get_beacon(&self, id: BeaconID) -> (r: Option<&Beacon>)
        ensures
            match r {
                Option::Some(e) => exists|i: int|
                    0 <= i < self.beacons@.len() && self.beacons@[i].id == id && e
                        == &self.beacons@[i],
                Option::None => forall|i: int|
                    0 <= i < self.beacons@.len() ==> self.beacons@[i].id != id,
            },
    {
        let n = self.beacons.len();
        let mut i: usize = 0;
        while i < n
            invariant
                i <= n,
                n == self.beacons@.len(),
                forall|j: int| 0 <= j < i ==> self.beacons@[j].id != id,
            decreases n - i,
        {
            if self.beacons[i].id == id {
                return Option::Some(&self.beacons[i]);
            }
            i += 1;
        }
        Option::None
    }

    /// True when some entity of the matching collection carries `id`.
    pub open spec fn contains_id(&self, id: ID) -> bool {
        match id {
            ID::Item(x) => exists|i: int| 0 <= i < self.items@.len() && self.items@[i].id == x,
            ID::Fluid(x) => exists|i: int| 0 <= i < self.fluids@.len() && self.fluids@[i].id == x,
            ID::Recipe(x) => exists|i: int| 0 <= i < self.recipes@.len() && self.recipes@[i].id == x,
            ID::Machine(x) => exists|i: int|
                0 <= i < self.machines@.len() && self.machines@[i].id == x,
            ID::Beacon(x) => exists|i: int|
                0 <= i < self.beacons@.len() && self.beacons@[i].id == x,
        }
    }

    /// True when the entity carrying `id` has metadata `m`.
    pub open spec fn id_has_metadata(&self, id: ID, m: Metadata) -> bool {
        match id {
            ID::Item(x) => exists|i: int|
                0 <= i < self.items@.len() && self.items@[i].id == x && self.items@[i].metadata
                    == m,
            ID::Fluid(x) => exists|i: int|
                0 <= i < self.fluids@.len() && self.fluids@[i].id == x && self.fluids@[i].metadata
                    == m,
            ID::Recipe(x) => exists|i: int|
                0 <= i < self.recipes@.len() && self.recipes@[i].id == x
                    && self.recipes@[i].metadata == m,
            ID::Machine(x) => exists|i: int|
                0 <= i < self.machines@.len() && self.machines@[i].id == x
                    && self.machines@[i].metadata == m,
            ID::Beacon(x) => exists|i: int|
                0 <= i < self.beacons@.len() && self.beacons@[i].id == x
                    && self.beacons@[i].metadata == m,
        }
    }

    /// The display metadata of any entity, by ID.
    pub fn metadata_of(&self, id: ID) -> (r: Option<&Metadata>)
        ensures
            match r {
                Option::Some(m) => self.id_has_metadata(id, *m),
                Option::None => !self.contains_id(id),
            },
    {
        match id {
            ID::Item(x) => match self.get_item(x) {
                Option::Some(e) => Option::Some(&e.metadata),
                Option::None => Option::None,
            },
            ID::Fluid(x) => match self.get_fluid(x) {
                Option::Some(e) => Option::Some(&e.metadata),
                Option::None => Option::None,
            },
            ID::Recipe(x) => match self.get_recipe(x) {
                Option::Some(e) => Option::Some(&e.metadata),
                Option::None => Option::None,
            },
            ID::Machine(x) => match self.get_machine(x) {
                Option::Some(e) => Option::Some(&e.metadata),
                Option::None => Option::None,
            },
            ID::Beacon(x) => match self.get_beacon(x) {
                Option::Some(e) => Option::Some(&e.metadata),
                Option::None => Option::None,
            },
        }
    }
}

} // verus!
