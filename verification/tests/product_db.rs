use cascette::product_db::exceeds_database_limit;
use cascette::{
    is_hash, select_installed_product, BaseProductState, CachedProductState, Database,
    ProductField, ProductInstall, SelectionError, MAX_DATABASE_BYTES,
};

const FOREVER_KEY: &str = "3bd89ce2721f7c75e7525dc83741076f";
const RETAIL_KEY: &str = "0123456789abcdef0123456789abcdef";

fn product(code: &str, version: &str, active: &str, install: &str) -> ProductInstall {
    ProductInstall {
        product_code: code.to_string(),
        cached_product_state: Some(CachedProductState {
            base_product_state: Some(BaseProductState {
                current_version_str: version.to_string(),
                active_build_key: active.to_string(),
                active_install_key: install.to_string(),
            }),
        }),
    }
}

fn database(records: Vec<ProductInstall>) -> Database {
    Database { product_install: records }
}

#[test]
fn selection_picks_the_requested_product() {
    let db = database(vec![
        product("wow", "12.0.5.1", RETAIL_KEY, ""),
        product("wow_forever", "1.60.1.69977", FOREVER_KEY, RETAIL_KEY),
    ]);
    let selected = select_installed_product(&db, "wow_forever").unwrap();
    assert_eq!(selected.product, "wow_forever");
    assert_eq!(selected.version, "1.60.1.69977");
    assert_eq!(selected.build_key, FOREVER_KEY);
    assert_eq!(selected.install_key, RETAIL_KEY);

    let selected = select_installed_product(&db, "wow").unwrap();
    assert_eq!(selected.version, "12.0.5.1");
    assert_eq!(selected.build_key, RETAIL_KEY);
    assert_eq!(selected.install_key, "");
}

#[test]
fn selection_rejects_missing_and_duplicate_products() {
    let db = database(vec![product("wow", "1", RETAIL_KEY, "")]);
    assert_eq!(select_installed_product(&db, "wow_forever"), Err(SelectionError::NotFound));
    let db = database(vec![
        product("wow", "1", RETAIL_KEY, ""),
        product("wow_classic", "3", RETAIL_KEY, ""),
        product("wow", "2", FOREVER_KEY, ""),
    ]);
    assert_eq!(select_installed_product(&db, "wow"), Err(SelectionError::Duplicate));
    assert_eq!(select_installed_product(&database(vec![]), "wow"), Err(SelectionError::NotFound));
}

#[test]
fn selection_rejects_missing_or_invalid_active_keys_and_empty_versions() {
    for (version, key, install, field) in [
        ("", FOREVER_KEY, "", ProductField::Version),
        ("1", "", "", ProductField::BuildKey),
        ("1", "xyz", "", ProductField::BuildKey),
        ("1", FOREVER_KEY, "not-hex", ProductField::InstallKey),
    ] {
        let db = database(vec![product("wow_forever", version, key, install)]);
        assert_eq!(
            select_installed_product(&db, "wow_forever"),
            Err(SelectionError::InvalidField(field))
        );
    }
    let missing_state = ProductInstall { product_code: "wow".to_string(), cached_product_state: None };
    assert_eq!(
        select_installed_product(&database(vec![missing_state]), "wow"),
        Err(SelectionError::InvalidField(ProductField::BaseProductState))
    );
    let missing_base = ProductInstall {
        product_code: "wow".to_string(),
        cached_product_state: Some(CachedProductState { base_product_state: None }),
    };
    assert_eq!(
        select_installed_product(&database(vec![missing_base]), "wow"),
        Err(SelectionError::InvalidField(ProductField::BaseProductState))
    );
}

#[test]
fn other_products_do_not_affect_selection() {
    // An invalid record for another product is never looked at.
    let db = database(vec![
        product("wow_beta", "", "", "x"),
        product("wow", "2", RETAIL_KEY, FOREVER_KEY),
    ]);
    let selected = select_installed_product(&db, "wow").unwrap();
    assert_eq!(selected.install_key, FOREVER_KEY);
}

#[test]
fn selection_is_unchanged_by_any_number_of_other_records() {
    let only = database(vec![product("wow", "2", RETAIL_KEY, FOREVER_KEY)]);
    let crowded = database(vec![
        product("d3", "1", RETAIL_KEY, ""),
        product("wow_classic", "", "", ""),
        product("wow", "2", RETAIL_KEY, FOREVER_KEY),
        product("pro", "9", "not a key", ""),
        product("WOW", "3", RETAIL_KEY, ""),
    ]);
    assert_eq!(
        select_installed_product(&only, "wow"),
        select_installed_product(&crowded, "wow")
    );
    let none = database(vec![]);
    let others = database(vec![product("d3", "1", RETAIL_KEY, ""), product("pro", "9", RETAIL_KEY, "")]);
    assert_eq!(
        select_installed_product(&none, "wow"),
        select_installed_product(&others, "wow")
    );
}

#[test]
fn hash_is_32_hex_digits() {
    assert!(is_hash(FOREVER_KEY));
    assert!(is_hash("0123456789ABCDEF0123456789abcdef"));
    assert!(!is_hash("0123456789abcdef0123456789abcde"));
    assert!(!is_hash("0123456789abcdef0123456789abcdef0"));
    assert!(!is_hash("0123456789abcdef0123456789abcdeg"));
    assert!(!is_hash(""));
    // 32 bytes, but not all ASCII digits.
    assert!(!is_hash("éé0123456789abcdef0123456789ab"));
}

#[test]
fn database_read_limit_is_16_mib() {
    assert_eq!(MAX_DATABASE_BYTES, 16 * 1024 * 1024);
    assert!(!exceeds_database_limit(16 * 1024 * 1024));
    assert!(exceeds_database_limit(16 * 1024 * 1024 + 1));
}

#[test]
fn field_names() {
    assert_eq!(ProductField::BaseProductState.name(), "cached_product_state.base_product_state");
    assert_eq!(ProductField::Version.name(), "version");
    assert_eq!(ProductField::BuildKey.name(), "build_key");
    assert_eq!(ProductField::InstallKey.name(), "install_key");
}
