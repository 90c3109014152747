use graphio_extractor::assembly::transform_data;
use graphio_extractor::model::ID;
use graphio_extractor::symbols::SymbolTable;
use graphio_extractor::Error;

fn stream(parts: &[&str]) -> Vec<Vec<u8>> {
    parts.iter().map(|p| p.as_bytes().to_vec()).collect()
}

fn meta(name: &str) -> Vec<String> {
    vec![
        format!("k\u{1f}{}", name),
        // An unresolved description: value echoes the key in the fixed
        // fallback shape (length = key length + 15).
        "d\u{1f}Unknown key: \"d\"".to_string(),
    ]
}

fn machine(id: &str, effects: &str) -> Vec<String> {
    let mut v = vec![id.to_string()];
    v.extend(meta(id));
    v.extend(["1.5", "100", "5", "2"].iter().map(|s| s.to_string()));
    v.push(effects.to_string());
    v
}

fn simple_item(id: &str) -> Vec<String> {
    let mut v = vec![id.to_string()];
    v.extend(meta(id));
    v.push("0".to_string());
    v
}

fn module_item(id: &str, modifiers: [&str; 4], limitations: Option<&[&str]>) -> Vec<String> {
    let mut v = vec![id.to_string()];
    v.extend(meta(id));
    v.push("1".to_string());
    v.extend(modifiers.iter().map(|s| s.to_string()));
    match limitations {
        None => v.push("0".to_string()),
        Some(recipes) => {
            v.push("1".to_string());
            v.push(format!("{}", recipes.len()));
            v.extend(recipes.iter().map(|s| s.to_string()));
        },
    }
    v
}

fn recipe(id: &str) -> Vec<String> {
    let mut v = vec![id.to_string()];
    v.extend(meta(id));
    v.push("0.5".to_string()); // time
    v.push("0".to_string()); // ingredients
    v.push("0".to_string()); // products
    v.push("0".to_string()); // crafted_in
    v
}

fn build(header: &str, blocks: Vec<Vec<String>>) -> Vec<Vec<u8>> {
    let mut lines = vec![header.to_string()];
    for b in blocks {
        lines.extend(b);
    }
    lines.into_iter().map(|s| s.into_bytes()).collect()
}

#[test]
fn assembles_a_minimal_model() {
    let lines = build(
        "1\u{1f}0\u{1f}0\u{1f}1\u{1f}0",
        vec![machine("press", "1111"), simple_item("iron")],
    );
    let mut table = SymbolTable::new();
    let gd = transform_data(lines, &mut table).unwrap();
    assert_eq!(gd.machines.len(), 1);
    assert_eq!(gd.beacons.len(), 0);
    assert_eq!(gd.recipes.len(), 0);
    assert_eq!(gd.items.len(), 1);
    assert_eq!(gd.fluids.len(), 0);
    assert_eq!(gd.modules.len(), 0);
    assert!(gd.tile_metadata.is_none());
    assert_eq!(table.resolve(gd.machines[0].id.0), b"press");
    assert_eq!(table.resolve(gd.machines[0].metadata.localised_name), b"press");
    assert!(gd.machines[0].metadata.localised_description.is_none());
    assert_eq!(table.resolve(gd.items[0].id.0), b"iron");
    assert_eq!(gd.machines[0].crafting_speed.numer, vec![3]);
    assert_eq!(gd.machines[0].crafting_speed.denom, 2);
    assert_eq!(gd.machines[0].module_slots.magnitude, vec![2]);
}

#[test]
fn duplicate_items_fail_with_schema_mismatch() {
    let lines = build(
        "0\u{1f}0\u{1f}0\u{1f}2\u{1f}0",
        vec![simple_item("iron"), simple_item("iron")],
    );
    let mut table = SymbolTable::new();
    assert!(matches!(transform_data(lines, &mut table), Err(Error::SchemaMismatch)));
}

#[test]
fn duplicate_machines_fail_with_schema_mismatch() {
    let lines = build(
        "2\u{1f}0\u{1f}0\u{1f}0\u{1f}0",
        vec![machine("press", "1111"), machine("press", "0000")],
    );
    let mut table = SymbolTable::new();
    assert!(matches!(transform_data(lines, &mut table), Err(Error::SchemaMismatch)));
}

#[test]
fn missing_records_fail_with_malformed_record() {
    // The header declares two items but only one follows.
    let lines = build("0\u{1f}0\u{1f}0\u{1f}2\u{1f}0", vec![simple_item("iron")]);
    let mut table = SymbolTable::new();
    assert!(matches!(transform_data(lines, &mut table), Err(Error::MalformedRecord)));
}

#[test]
fn bad_header_fails() {
    let mut table = SymbolTable::new();
    let lines = stream(&["1\u{1f}2\u{1f}3"]);
    assert!(transform_data(lines, &mut table).is_err());
    let lines = stream(&["a\u{1f}b\u{1f}c\u{1f}d\u{1f}e"]);
    assert!(matches!(transform_data(lines, &mut table), Err(Error::NumericParseError)));
    let empty: Vec<Vec<u8>> = vec![];
    assert!(matches!(transform_data(empty, &mut table), Err(Error::MalformedRecord)));
}

#[test]
fn module_effect_filtering_respects_gates() {
    // One machine allows everything, one gates productivity off.
    let lines = build(
        "2\u{1f}0\u{1f}0\u{1f}2\u{1f}0",
        vec![
            machine("open", "1111"),
            machine("gated", "1101"),
            module_item("prod-module", ["0", "0", "0.25", "0"], None),
            module_item("null-module", ["0", "0", "0", "0"], None),
        ],
    );
    let mut table = SymbolTable::new();
    let gd = transform_data(lines, &mut table).unwrap();
    assert_eq!(gd.modules.len(), 2);
    let open = &gd.machines[0];
    let gated = &gd.machines[1];
    let prod_sym = gd.modules[0].id;
    let null_sym = gd.modules[1].id;
    assert!(open.supported_modules.contains(&prod_sym));
    assert!(open.supported_modules.contains(&null_sym));
    // A module with a nonzero modifier on a gated channel is excluded;
    // an all-zero module is supported regardless of the gates.
    assert!(!gated.supported_modules.contains(&prod_sym));
    assert!(gated.supported_modules.contains(&null_sym));
}

#[test]
fn module_without_limitations_supports_all_recipes() {
    let lines = build(
        "0\u{1f}0\u{1f}2\u{1f}1\u{1f}0",
        vec![
            recipe("gears"),
            recipe("plates"),
            module_item("speedy", ["0", "0.5", "0", "0"], None),
        ],
    );
    let mut table = SymbolTable::new();
    let gd = transform_data(lines, &mut table).unwrap();
    let module_id = gd.modules[0].id;
    for r in &gd.recipes {
        assert_eq!(r.supported_modules, vec![module_id]);
    }
}

#[test]
fn module_limitations_attach_to_named_recipes_only() {
    let lines = build(
        "0\u{1f}0\u{1f}2\u{1f}1\u{1f}0",
        vec![
            recipe("gears"),
            recipe("plates"),
            module_item("speedy", ["0", "0.5", "0", "0"], Some(&["plates"])),
        ],
    );
    let mut table = SymbolTable::new();
    let gd = transform_data(lines, &mut table).unwrap();
    let module_id = gd.modules[0].id;
    assert!(gd.recipes[0].supported_modules.is_empty());
    assert_eq!(gd.recipes[1].supported_modules, vec![module_id]);
}

#[test]
fn module_limitation_naming_unknown_recipe_fails() {
    let lines = build(
        "0\u{1f}0\u{1f}1\u{1f}1\u{1f}0",
        vec![
            recipe("gears"),
            module_item("speedy", ["0", "0.5", "0", "0"], Some(&["no-such-recipe"])),
        ],
    );
    let mut table = SymbolTable::new();
    assert!(matches!(transform_data(lines, &mut table), Err(Error::ReferenceError)));
}

#[test]
fn unknown_ingredient_kind_fails() {
    let mut rec = vec!["odd".to_string()];
    rec.extend(meta("odd"));
    rec.push("1".to_string()); // time
    rec.push("1".to_string()); // one ingredient
    rec.push("plasma".to_string()); // unknown kind token
    rec.push("x".to_string());
    rec.push("1".to_string());
    rec.push("0".to_string());
    let lines = build("0\u{1f}0\u{1f}1\u{1f}0\u{1f}0", vec![rec]);
    let mut table = SymbolTable::new();
    assert!(matches!(transform_data(lines, &mut table), Err(Error::UnknownVariant)));
}

#[test]
fn recipe_with_full_structure_parses() {
    let mut rec = vec!["smelt".to_string()];
    rec.extend(meta("smelt"));
    rec.push("3.2".to_string()); // time
    rec.push("2".to_string()); // two ingredients
    // item ingredient
    rec.extend(["item", "ore", "2", "0"].iter().map(|s| s.to_string()));
    // fluid ingredient with a minimum temperature only
    rec.extend(["fluid", "water", "10", "0", "10"].iter().map(|s| s.to_string()));
    rec.push("15".to_string());
    rec.push("1".to_string()); // one product
    rec.extend(["item", "plate", "fixed", "1", "0"].iter().map(|s| s.to_string()));
    rec.push("1".to_string()); // crafted in one machine
    rec.push("furnace".to_string());
    let lines = build("0\u{1f}0\u{1f}1\u{1f}0\u{1f}0", vec![rec]);
    let mut table = SymbolTable::new();
    let gd = transform_data(lines, &mut table).unwrap();
    let r = &gd.recipes[0];
    assert_eq!(table.resolve(r.id.0), b"smelt");
    assert_eq!(r.time.numer, vec![1, 6]);
    assert_eq!(r.time.denom, 5);
    assert_eq!(r.ingredients.len(), 2);
    assert_eq!(r.products.len(), 1);
    assert_eq!(r.crafted_in.len(), 1);
    assert_eq!(table.resolve(r.crafted_in[0].0), b"furnace");
}

#[test]
fn lookups_resolve_by_id() {
    let lines = build(
        "1\u{1f}0\u{1f}0\u{1f}1\u{1f}0",
        vec![machine("press", "1111"), simple_item("iron")],
    );
    let mut table = SymbolTable::new();
    let gd = transform_data(lines, &mut table).unwrap();
    let mid = gd.machines[0].id;
    let found = gd.get_machine(mid).unwrap();
    assert_eq!(table.resolve(found.metadata.localised_name), b"press");
    let iid = gd.items[0].id;
    assert!(gd.get_item(iid).is_some());
    assert!(gd.metadata_of(ID::Machine(mid)).is_some());
    assert!(gd.metadata_of(ID::Item(iid)).is_some());
}

fn beacon(id: &str, effects: &str) -> Vec<String> {
    let mut v = vec![id.to_string()];
    v.extend(meta(id));
    v.push("0.5".to_string()); // distribution effectivity
    v.push(effects.to_string());
    v
}

fn fluid(id: &str) -> Vec<String> {
    let mut v = vec![id.to_string()];
    v.extend(meta(id));
    v
}

#[test]
fn beacons_and_fluids_assemble_with_module_filtering() {
    let lines = build(
        "0\u{1f}1\u{1f}0\u{1f}1\u{1f}1",
        vec![
            beacon("spreader", "1100"),
            module_item("dirty", ["0", "0", "0", "0.75"], None),
            fluid("water"),
        ],
    );
    let mut table = SymbolTable::new();
    let gd = transform_data(lines, &mut table).unwrap();
    assert_eq!(gd.beacons.len(), 1);
    assert_eq!(gd.fluids.len(), 1);
    assert_eq!(table.resolve(gd.beacons[0].id.0), b"spreader");
    assert_eq!(gd.beacons[0].distribution_effectivity.numer, vec![1]);
    assert_eq!(gd.beacons[0].distribution_effectivity.denom, 2);
    // The module has a nonzero pollution modifier but the beacon gates
    // pollution off, so it is not supported.
    assert!(gd.beacons[0].supported_modules.is_empty());
    assert_eq!(table.resolve(gd.fluids[0].id.0), b"water");
}

#[test]
fn duplicate_fluids_fail_with_schema_mismatch() {
    let lines = build("0\u{1f}0\u{1f}0\u{1f}0\u{1f}2", vec![fluid("water"), fluid("water")]);
    let mut table = SymbolTable::new();
    assert!(matches!(transform_data(lines, &mut table), Err(Error::SchemaMismatch)));
}

#[test]
fn duplicate_recipes_fail_with_schema_mismatch() {
    let lines = build("0\u{1f}0\u{1f}2\u{1f}0\u{1f}0", vec![recipe("gears"), recipe("gears")]);
    let mut table = SymbolTable::new();
    assert!(matches!(transform_data(lines, &mut table), Err(Error::SchemaMismatch)));
}

#[test]
fn crafted_in_collapses_duplicate_machines() {
    let mut rec = vec!["smelt".to_string()];
    rec.extend(meta("smelt"));
    rec.push("1".to_string());
    rec.push("0".to_string());
    rec.push("0".to_string());
    rec.push("3".to_string()); // three crafted-in entries, one repeated
    rec.push("furnace".to_string());
    rec.push("oven".to_string());
    rec.push("furnace".to_string());
    let lines = build("0\u{1f}0\u{1f}1\u{1f}0\u{1f}0", vec![rec]);
    let mut table = SymbolTable::new();
    let gd = transform_data(lines, &mut table).unwrap();
    assert_eq!(gd.recipes[0].crafted_in.len(), 2);
}

#[test]
fn empty_declaration_assembles_an_empty_model() {
    let lines = stream(&["0\u{1f}0\u{1f}0\u{1f}0\u{1f}0"]);
    let mut table = SymbolTable::new();
    let gd = transform_data(lines, &mut table).expect("an all-zero header is a complete data set");
    assert_eq!(gd.items.len(), 0);
    assert_eq!(gd.fluids.len(), 0);
    assert_eq!(gd.recipes.len(), 0);
    assert_eq!(gd.machines.len(), 0);
    assert_eq!(gd.beacons.len(), 0);
    assert_eq!(gd.modules.len(), 0);
    assert!(gd.tile_metadata.is_none());
}
