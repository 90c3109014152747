use graphio_extractor::symbols::{Str, SymbolTable};

#[test]
fn intern_is_idempotent() {
    let mut table = SymbolTable::new();
    let a = table.intern(b"iron-plate".to_vec());
    let b = table.intern(b"iron-plate".to_vec());
    assert_eq!(a, b);
    assert_eq!(table.len(), 1);
}

#[test]
fn intern_distinguishes_texts() {
    let mut table = SymbolTable::new();
    let a = table.intern(b"iron-plate".to_vec());
    let b = table.intern(b"copper-plate".to_vec());
    assert_ne!(a, b);
    assert_eq!(table.len(), 2);
}

#[test]
fn intern_is_order_independent() {
    let mut t1 = SymbolTable::new();
    let a1 = t1.intern(b"alpha".to_vec());
    let b1 = t1.intern(b"beta".to_vec());
    let mut t2 = SymbolTable::new();
    let b2 = t2.intern(b"beta".to_vec());
    let a2 = t2.intern(b"alpha".to_vec());
    // Whatever the interning order, a symbol resolves to its own text
    // and equal texts compare equal through their symbols.
    assert_eq!(t1.resolve(a1), b"alpha");
    assert_eq!(t1.resolve(b1), b"beta");
    assert_eq!(t2.resolve(a2), b"alpha");
    assert_eq!(t2.resolve(b2), b"beta");
    assert_ne!(a1, b1);
    assert_ne!(a2, b2);
}

#[test]
fn resolve_returns_interned_text() {
    let mut table = SymbolTable::new();
    let s = Str::new(&mut table, b"assembling-machine-1".to_vec());
    assert_eq!(table.resolve(s), b"assembling-machine-1");
}

#[test]
fn reinterning_keeps_table_unchanged() {
    let mut table = SymbolTable::new();
    let a = table.intern(b"water".to_vec());
    let _ = table.intern(b"steam".to_vec());
    let c = table.intern(b"water".to_vec());
    assert_eq!(a, c);
    assert_eq!(table.len(), 2);
}
