//! Selecting the installed product's active metadata from a decoded local
//! Battle.net `.product.db`.
//!
//! The message layout follows TACTLib's generated `ProtoDatabase.cs`:
//! Database.productInstall (1), ProductInstall.productCode (2) and
//! cachedProductState (4), CachedProductState.baseProductState (1),
//! BaseProductState.currentVersionStr (7), activeBuildKey (14) and
//! activeInstallKey (16). Active-key selection is this library's policy, not a
//! claim of native Battle.net conformance or of a complete installation.

use vstd::prelude::*;
use vstd::string::StringSliceAdditionalSpecFns;
use vstd::utf8::encode_utf8;
use crate::keys::{all_hex_digits, is_hex_digit};

verus! {

/// Largest `.product.db` that is read: 16 MiB.
pub const MAX_DATABASE_BYTES: u64 = 16 * 1024 * 1024;

/// The decoded database: one record per installed product.
pub struct Database {
    pub product_install: Vec<ProductInstall>,
}

/// One installed product.
pub struct ProductInstall {
    pub product_code: String,
    pub cached_product_state: Option<CachedProductState>,
}

/// Cached state of an installed product.
pub struct CachedProductState {
    pub base_product_state: Option<BaseProductState>,
}

/// The product's base state; of its fields only these three are read.
pub struct BaseProductState {
    pub current_version_str: String,
    pub active_build_key: String,
    pub active_install_key: String,
}

/// Installed product's locally selected active metadata.
#[derive(Debug, Clone, PartialEq, Eq)]
pub struct InstalledProduct {
    /// Requested product code.
    pub product: String,
    /// Current version string in the cached product state.
    pub version: String,
    /// Active build configuration key (32 hex characters).
    pub build_key: String,
    /// Active install key (empty when absent, otherwise 32 hex characters).
    pub install_key: String,
}

/// The metadata field of the selected record that was absent or invalid.
#[derive(Debug, Clone, Copy, PartialEq, Eq)]
pub enum ProductField {
    BaseProductState,
    Version,
    BuildKey,
    InstallKey,
}

impl ProductField {
    /// The field's name as reported in errors.
    pub fn name(&self) -> (s: &'static str)
        ensures
            s@ == match self {
                ProductField::BaseProductState => "cached_product_state.base_product_state"@,
                ProductField::Version => "version"@,
                ProductField::BuildKey => "build_key"@,
                ProductField::InstallKey => "install_key"@,
            },
    {
        match self {
            ProductField::BaseProductState => "cached_product_state.base_product_state",
            ProductField::Version => "version",
            ProductField::BuildKey => "build_key",
            ProductField::InstallKey => "install_key",
        }
    }
}

/// Why no product was selected.
#[derive(Debug, Clone, Copy, PartialEq, Eq)]
pub enum SelectionError {
    /// No record has the requested product code.
    NotFound,
    /// More than one record has the requested product code.
    Duplicate,
    /// The selected record's metadata is absent or invalid.
    InvalidField(ProductField),
}

/// The selected product's metadata, as character sequences.
pub struct SelectedView {
    pub product: Seq<char>,
    pub version: Seq<char>,
    pub build_key: Seq<char>,
    pub install_key: Seq<char>,
}

impl View for InstalledProduct {
    type V = SelectedView;

    open spec fn view(&self) -> SelectedView {
        SelectedView {
            product: self.product@,
            version: self.version@,
            build_key: self.build_key@,
            install_key: self.install_key@,
        }
    }
}

/// Text whose UTF-8 encoding is exactly 32 ASCII hexadecimal digits.
pub open spec fn is_hash_text(s: Seq<char>) -> bool {
    encode_utf8(s).len() == 32 && all_hex_digits(encode_utf8(s))
}

/// Record `i` exists and has the product code `product`.
pub open spec fn is_match(records: Seq<ProductInstall>, i: int, product: Seq<char>) -> bool {
    0 <= i < records.len() && records[i].product_code@ == product
}

/// The metadata of the selected record, or the first field that is absent or
/// invalid: the base state must be present, the version non-empty, the build key
/// a hash, and the install key empty or a hash.
pub open spec fn spec_validate(record: ProductInstall, product: Seq<char>) -> Result<SelectedView, SelectionError> {
    match record.cached_product_state {
        None => Err(SelectionError::InvalidField(ProductField::BaseProductState)),
        Some(state) => match state.base_product_state {
            None => Err(SelectionError::InvalidField(ProductField::BaseProductState)),
            Some(base) => if base.current_version_str@.len() == 0 {
                Err(SelectionError::InvalidField(ProductField::Version))
            } else if !is_hash_text(base.active_build_key@) {
                Err(SelectionError::InvalidField(ProductField::BuildKey))
            } else if base.active_install_key@.len() != 0 && !is_hash_text(base.active_install_key@) {
                Err(SelectionError::InvalidField(ProductField::InstallKey))
            } else {
                Ok(SelectedView {
                    product,
                    version: base.current_version_str@,
                    build_key: base.active_build_key@,
                    install_key: base.active_install_key@,
                })
            },
        },
    }
}

/// The selection: no matching record is `NotFound`, two or more are `Duplicate`,
/// and exactly one is validated.
pub open spec fn spec_select(records: Seq<ProductInstall>, product: Seq<char>) -> Result<SelectedView, SelectionError> {
    if !(exists|i: int| is_match(records, i, product)) {
        Err(SelectionError::NotFound)
    } else if exists|i: int, j: int| i < j && is_match(records, i, product) && is_match(records, j, product) {
        Err(SelectionError::Duplicate)
    } else {
        spec_validate(records[choose|i: int| is_match(records, i, product)], product)
    }
}

/// The records with the product code `product`, in database order.
pub open spec fn matching(records: Seq<ProductInstall>, product: Seq<char>) -> Seq<ProductInstall> {
    records.filter(|r: ProductInstall| r.product_code@ == product)
}

/// The selection among the records for one product: none is `NotFound`, two or
/// more are `Duplicate`, and a single one is validated.
pub open spec fn select_among(matches: Seq<ProductInstall>, product: Seq<char>) -> Result<SelectedView, SelectionError> {
    if matches.len() == 0 {
        Err(SelectionError::NotFound)
    } else if matches.len() >= 2 {
        Err(SelectionError::Duplicate)
    } else {
        spec_validate(matches[0], product)
    }
}

/// Whether a database of `len` bytes exceeds the read limit.
pub fn exceeds_database_limit(len: u64) -> (r: bool)
    ensures
        r == (len > MAX_DATABASE_BYTES),
{
    len > MAX_DATABASE_BYTES
}

/// A build or install key: exactly 32 ASCII hexadecimal digits.
pub fn is_hash(key: &str) -> (r: bool)
    ensures
        r == (key.spec_bytes().len() == 32 && all_hex_digits(key.spec_bytes())),
{
    let bytes = key.as_bytes();
    if bytes.len() != 32 {
        return false;
    }
    let mut i: usize = 0;
    while i < 32
        invariant
            i <= 32,
            bytes@.len() == 32,
            bytes@ == key.spec_bytes(),
            forall|k: int| 0 <= k < i ==> #[trigger] is_hex_digit(bytes@[k]),
        decreases 32 - i,
    {
        let b = bytes[i];
        if !((0x30 <= b && b <= 0x39) || (0x61 <= b && b <= 0x66) || (0x41 <= b && b <= 0x46)) {
            assert(!is_hex_digit(bytes@[i as int]));
            return false;
        }
        i = i + 1;
    }
    true
}

/// Checks the selected record's metadata and copies it out.
fn validate(record: &ProductInstall, product: &str) -> (r: Result<InstalledProduct, SelectionError>)
    ensures
        match spec_validate(*record, product@) {
            Ok(v) => r matches Ok(p) && p@ == v,
            Err(e) => r == Err::<InstalledProduct, SelectionError>(e),
        },
{
    let state = match &record.cached_product_state {
        Some(state) => state,
        None => return Err(SelectionError::InvalidField(ProductField::BaseProductState)),
    };
    let base = match &state.base_product_state {
        Some(base) => base,
        None => return Err(SelectionError::InvalidField(ProductField::BaseProductState)),
    };
    if base.current_version_str.as_str().is_empty() {
        return Err(SelectionError::InvalidField(ProductField::Version));
    }
    if !is_hash(base.active_build_key.as_str()) {
        return Err(SelectionError::InvalidField(ProductField::BuildKey));
    }
    if !base.active_install_key.as_str().is_empty() && !is_hash(base.active_install_key.as_str()) {
        return Err(SelectionError::InvalidField(ProductField::InstallKey));
    }
    Ok(InstalledProduct {
        product: product.to_owned(),
        version: base.current_version_str.clone(),
        build_key: base.active_build_key.clone(),
        install_key: base.active_install_key.clone(),
    })
}

/// Selects exactly one record with the product code `product` and returns its
/// version, active build key and active install key.
///
/// Selection uses `activeBuildKey` rather than completed or incomplete build keys.
/// `playable` is not checked: local metadata remains readable when it is false.
pub fn select_installed_product(database: &Database, product: &str) -> (r: Result<InstalledProduct, SelectionError>)
    ensures
        match spec_select(database.product_install@, product@) {
            Ok(v) => r matches Ok(p) && p@ == v,
            Err(e) => r == Err::<InstalledProduct, SelectionError>(e),
        },
{
    let ghost records = database.product_install@;
    let wanted = product.to_owned();
    let mut first: Option<usize> = None;
    let mut i: usize = 0;
    let n = database.product_install.len();
    while i < n
        invariant
            n == records.len(),
            records == database.product_install@,
            wanted@ == product@,
            i <= n,
            match first {
                None => forall|k: int| 0 <= k < i ==> !#[trigger] is_match(records, k, product@),
                Some(f) => f < i && is_match(records, f as int, product@) && forall|k: int|
                    0 <= k < i && k != f ==> !#[trigger] is_match(records, k, product@),
            },
        decreases n - i,
    {
        if database.product_install[i].product_code == wanted {
            assert(is_match(records, i as int, product@));
            match first {
                None => {
                    first = Some(i);
                },
                Some(f) => {
                    assert(f < i && is_match(records, f as int, product@) && is_match(records, i as int, product@));
                    return Err(SelectionError::Duplicate);
                },
            }
        } else {
            assert(!is_match(records, i as int, product@));
        }
        i = i + 1;
    }
    match first {
        None => Err(SelectionError::NotFound),
        Some(f) => {
            assert(is_match(records, f as int, product@));
            assert(!exists|a: int, b: int| a < b && is_match(records, a, product@) && is_match(records, b, product@));
            let ghost chosen = choose|k: int| is_match(records, k, product@);
            assert(chosen == f);
            validate(&database.product_install[f], product)
        },
    }
}

/// A selected product is the requested one, has a non-empty version, a hash as
/// its build key and either no install key or a hash, and comes from the only
/// record with that product code.
pub proof fn lemma_selection_is_valid(records: Seq<ProductInstall>, product: Seq<char>)
    ensures
        spec_select(records, product) matches Ok(v) ==> {
            &&& v.product == product
            &&& v.version.len() > 0
            &&& is_hash_text(v.build_key)
            &&& (v.install_key.len() == 0 || is_hash_text(v.install_key))
            &&& exists|i: int| #![trigger records[i]] is_match(records, i, product) && forall|j: int|
                #![trigger records[j]] is_match(records, j, product) ==> j == i
        },
{
    if let Ok(v) = spec_select(records, product) {
        let i = choose|i: int| is_match(records, i, product);
        assert forall|j: int| #![trigger records[j]] is_match(records, j, product) implies j == i by {
            if j < i {
                assert(j < i && is_match(records, j, product) && is_match(records, i, product));
            } else if i < j {
                assert(i < j && is_match(records, i, product) && is_match(records, j, product));
            }
        }
        assert(is_match(records, i, product));
    }
}

/// A record for another product, inserted anywhere, does not change the selection.
pub proof fn lemma_other_products_ignored(records: Seq<ProductInstall>, k: int, other: ProductInstall, product: Seq<char>)
    requires
        0 <= k <= records.len(),
        other.product_code@ != product,
    ensures
        spec_select(records.insert(k, other), product) == spec_select(records, product),
{
    let more = records.insert(k, other);
    assert forall|i: int| #[trigger] is_match(records, i, product) implies is_match(more, if i < k { i } else { i + 1 }, product) by {
        if i < k {
            assert(more[i] == records[i]);
        } else {
            assert(more[i + 1] == records[i]);
        }
    }
    assert forall|j: int| #[trigger] is_match(more, j, product) implies j != k && is_match(records, if j < k { j } else { j - 1 }, product) by {
        if j < k {
            assert(more[j] == records[j]);
        } else if j > k {
            assert(more[j] == records[j - 1]);
        }
    }
    if exists|i: int| is_match(records, i, product) {
        let i0 = choose|i: int| is_match(records, i, product);
        assert(is_match(more, if i0 < k { i0 } else { i0 + 1 }, product));
        if exists|i: int, j: int| i < j && is_match(records, i, product) && is_match(records, j, product) {
            let (a, b) = choose|i: int, j: int| i < j && is_match(records, i, product) && is_match(records, j, product);
            let ua = if a < k { a } else { a + 1 };
            let ub = if b < k { b } else { b + 1 };
            assert(ua < ub && is_match(more, ua, product) && is_match(more, ub, product));
        } else {
            if exists|i: int, j: int| i < j && is_match(more, i, product) && is_match(more, j, product) {
                let (a, b) = choose|i: int, j: int| i < j && is_match(more, i, product) && is_match(more, j, product);
                let da = if a < k { a } else { a - 1 };
                let db = if b < k { b } else { b - 1 };
                assert(da < db && is_match(records, da, product) && is_match(records, db, product));
            }
            let c = choose|i: int| is_match(more, i, product);
            let dc = if c < k { c } else { c - 1 };
            assert(is_match(records, dc, product));
            if dc < i0 {
                assert(dc < i0 && is_match(records, dc, product) && is_match(records, i0, product));
            } else if i0 < dc {
                assert(i0 < dc && is_match(records, i0, product) && is_match(records, dc, product));
            }
            assert(more[c] == records[i0]);
        }
    } else {
        assert(!(exists|i: int| is_match(more, i, product)));
    }
}

/// The selection depends only on the records for the requested product.
proof fn lemma_select_via_matching(records: Seq<ProductInstall>, product: Seq<char>)
    ensures
        spec_select(records, product) == select_among(matching(records, product), product),
    decreases records.len(),
{
    let pred = |r: ProductInstall| r.product_code@ == product;
    reveal_with_fuel(Seq::filter, 1);
    if records.len() == 0 {
        assert(!(exists|i: int| is_match(records, i, product)));
        assert(matching(records, product).len() == 0);
    } else {
        let p = records.drop_last();
        let x = records.last();
        let n = p.len() as int;
        lemma_select_via_matching(p, product);
        assert(p.insert(n, x) =~= records);
        assert(records.drop_last() == p);
        if x.product_code@ != product {
            lemma_other_products_ignored(p, n, x, product);
            assert(matching(records, product) == matching(p, product));
        } else {
            assert(matching(records, product) == matching(p, product).push(x));
            assert(is_match(records, n, product));
            if matching(p, product).len() == 0 {
                assert(spec_select(p, product) == Err::<SelectedView, SelectionError>(SelectionError::NotFound));
                assert forall|i: int| #[trigger] is_match(records, i, product) implies i == n by {
                    if i < n {
                        assert(records[i] == p[i]);
                        assert(is_match(p, i, product));
                    }
                }
                assert(!exists|i: int, j: int| i < j && is_match(records, i, product) && is_match(records, j, product));
                assert(matching(records, product)[0] == x);
            } else {
                assert(spec_select(p, product) != Err::<SelectedView, SelectionError>(SelectionError::NotFound));
                let i = choose|i: int| is_match(p, i, product);
                assert(records[i] == p[i]);
                assert(i < n && is_match(records, i, product) && is_match(records, n, product));
            }
        }
    }
}

/// Records of other products never change the selection: two databases whose
/// records for `product` are the same, in the same order, select the same result.
pub proof fn lemma_selection_depends_only_on_matches(a: Seq<ProductInstall>, b: Seq<ProductInstall>, product: Seq<char>)
    requires
        matching(a, product) == matching(b, product),
    ensures
        spec_select(a, product) == spec_select(b, product),
{
    lemma_select_via_matching(a, product);
    lemma_select_via_matching(b, product);
}

} // verus!
