//! The payloads of the GW2 API endpoints the overlay reads, the
//! permissions a key needs, and the request paths of the batch endpoints.
use vstd::prelude::*;

use crate::error::AppError;
use crate::text::{concat, decimal, decimal_string, join, join_strings, owned, texts};

verus! {

#[derive(Debug, Clone)]
pub struct TokenInfo {
    pub id: String,
    pub name: String,
    pub permissions: Vec<String>,
}

#[derive(Debug, Clone)]
pub struct AccountAchievement {
    pub id: u32,
    pub current: Option<u32>,
    pub max: Option<u32>,
    pub done: bool,
    pub bits: Vec<u32>,
    pub repeated: Option<u32>,
    pub unlocked: bool,
}

/// An achievement the payload leaves `unlocked` out of counts as unlocked.
pub fn default_unlocked() -> (r: bool)
    ensures
        r,
{
    true
}

#[derive(Debug, Clone)]
pub struct DailyCategories {
    pub pve: Vec<DailyEntry>,
    pub pvp: Vec<DailyEntry>,
    pub wvw: Vec<DailyEntry>,
    pub fractals: Vec<DailyEntry>,
    pub special: Vec<DailyEntry>,
}

#[derive(Debug, Clone)]
pub struct DailyEntry {
    pub id: u32,
    pub level: DailyLevel,
    pub required_access: Option<RequiredAccess>,
}

#[derive(Debug, Clone)]
pub struct DailyLevel {
    pub min: u32,
    pub max: u32,
}

#[derive(Debug, Clone)]
pub struct RequiredAccess {
    pub product: String,
    pub condition: String,
}

#[derive(Debug, Clone)]
pub struct AchievementTier {
    pub count: u32,
    pub points: i32,
}

#[derive(Debug, Clone)]
pub struct WizardsVaultObjective {
    pub id: u32,
    pub title: String,
    pub track: String,
    pub acclaim: u32,
    pub progress_current: u32,
    pub progress_complete: u32,
    pub claimed: bool,
}

#[derive(Debug, Clone)]
pub struct WizardsVaultPeriod {
    pub meta_progress_current: u32,
    pub meta_progress_complete: u32,
    pub meta_reward_claimed: bool,
    pub objectives: Vec<WizardsVaultObjective>,
}

#[derive(Debug, Clone)]
pub struct ItemDetail {
    pub id: u32,
    pub name: String,
    pub kind: Option<String>,
    pub rarity: Option<String>,
    pub icon: Option<String>,
    pub description: Option<String>,
}

#[derive(Debug, Clone)]
pub struct SkinDetail {
    pub id: u32,
    pub name: String,
    pub kind: Option<String>,
    pub rarity: Option<String>,
    pub icon: Option<String>,
    pub description: Option<String>,
}

#[derive(Debug, Clone)]
pub struct InventorySlot {
    pub id: u32,
    pub count: u32,
}

#[derive(Debug, Clone)]
pub struct MaterialStack {
    pub id: u32,
    pub count: u32,
    pub category: Option<u32>,
}

#[derive(Debug, Clone)]
pub struct CharacterBag {
    pub inventory: Vec<Option<InventorySlot>>,
}

#[derive(Debug, Clone)]
pub struct EquipmentSlot {
    pub id: u32,
    pub slot: String,
}

#[derive(Debug, Clone)]
pub struct Character {
    pub name: String,
    pub bags: Vec<Option<CharacterBag>>,
    pub equipment: Vec<EquipmentSlot>,
}

#[derive(Debug, Clone)]
pub struct WalletEntry {
    pub id: u32,
    pub value: i64,
}

#[derive(Debug, Clone)]
pub struct CurrencyDetail {
    pub id: u32,
    pub name: String,
    pub description: Option<String>,
    pub icon: Option<String>,
    pub order: i32,
}

// ---------------------------------------------------------------------------
// Permissions
// ---------------------------------------------------------------------------

/// The permissions the overlay needs from a key, in the order they are
/// reported.
pub open spec fn required_spec() -> Seq<Seq<char>> {
    seq!["account"@, "progression"@, "unlocks"@, "inventories"@, "characters"@, "wallet"@]
}

/// `perms` grants permission `p`.
pub open spec fn grants(perms: Seq<String>, p: Seq<char>) -> bool {
    exists|i: int| 0 <= i < perms.len() && (#[trigger] perms[i])@ == p
}

/// The permissions of `req` that `perms` does not grant, in order.
pub open spec fn missing_of(req: Seq<Seq<char>>, perms: Seq<String>) -> Seq<Seq<char>>
    decreases req.len(),
{
    if req.len() == 0 {
        Seq::empty()
    } else {
        let prev = missing_of(req.drop_last(), perms);
        if grants(perms, req.last()) {
            prev
        } else {
            prev.push(req.last())
        }
    }
}

/// The permissions the overlay needs from a key.
pub fn required_permissions() -> (r: Vec<String>)
    ensures
        texts(r@) == required_spec(),
{
    let mut r: Vec<String> = Vec::new();
    r.push(owned("account"));
    r.push(owned("progression"));
    r.push(owned("unlocks"));
    r.push(owned("inventories"));
    r.push(owned("characters"));
    r.push(owned("wallet"));
    assert(texts(r@) =~= required_spec());
    r
}

fn grants_exec(perms: &Vec<String>, p: &String) -> (r: bool)
    ensures
        r == grants(perms@, p@),
{
    let mut i: usize = 0;
    while i < perms.len()
        invariant
            i <= perms.len(),
            forall|k: int| 0 <= k < i ==> (#[trigger] perms@[k])@ != p@,
        decreases perms.len() - i,
    {
        if perms[i] == *p {
            return true;
        }
        i = i + 1;
    }
    false
}

/// The required permissions that `info` does not grant, in order.
pub fn required_missing(info: &TokenInfo) -> (r: Vec<String>)
    ensures
        texts(r@) == missing_of(required_spec(), info.permissions@),
{
    let required = required_permissions();
    let ghost req = texts(required@);
    let mut out: Vec<String> = Vec::new();
    let mut i: usize = 0;
    while i < required.len()
        invariant
            i <= required.len(),
            req == texts(required@),
            req == required_spec(),
            texts(out@) == missing_of(req.take(i as int), info.permissions@),
        decreases required.len() - i,
    {
        assert(req.take(i + 1).drop_last() == req.take(i as int));
        assert(req.take(i + 1).last() == required@[i as int]@);
        if !grants_exec(&info.permissions, &required[i]) {
            let ghost before = out@;
            out.push(required[i].clone());
            assert(texts(out@) =~= texts(before).push(required@[i as int]@));
        }
        i = i + 1;
    }
    assert(req.take(required.len() as int) == req);
    out
}

impl TokenInfo {
    /// Every required permission is granted; otherwise the error names the
    /// missing ones, comma separated.
    pub fn check_required_permissions(&self) -> (r: Result<(), AppError>)
        ensures
            missing_of(required_spec(), self.permissions@).len() == 0 ==> r is Ok,
            missing_of(required_spec(), self.permissions@).len() > 0 ==> (r matches Err(
                AppError::MissingPermissions(m),
            ) && m@ == join(missing_of(required_spec(), self.permissions@), ", "@)),
    {
        let missing = required_missing(self);
        if missing.len() == 0 {
            Ok(())
        } else {
            Err(AppError::MissingPermissions(join_strings(&missing, ", ")))
        }
    }
}

/// What the overlay reports about a key after probing it.
#[derive(Debug, Clone)]
pub struct ApiKeyStatus {
    pub account_id: String,
    pub permissions: Vec<String>,
    pub permissions_ok: bool,
    pub missing: Vec<String>,
}

impl ApiKeyStatus {
    /// The status of a key of `account_id` whose token info is `info`.
    pub fn from(account_id: String, info: TokenInfo) -> (r: Self)
        ensures
            r.account_id == account_id,
            r.permissions == info.permissions,
            texts(r.missing@) == missing_of(required_spec(), info.permissions@),
            r.permissions_ok == (missing_of(required_spec(), info.permissions@).len() == 0),
    {
        let missing = required_missing(&info);
        let ok = missing.len() == 0;
        ApiKeyStatus { account_id, permissions: info.permissions, permissions_ok: ok, missing }
    }
}

// ---------------------------------------------------------------------------
// Request paths
// ---------------------------------------------------------------------------

/// The decimal renderings of `ids`, comma separated.
pub open spec fn ids_csv(ids: Seq<u32>) -> Seq<char> {
    join(ids.map_values(|id: u32| decimal(id as nat)), ","@)
}

/// `ids` in decimal, comma separated.
pub fn ids_csv_exec(ids: &Vec<u32>) -> (r: String)
    ensures
        r@ == ids_csv(ids@),
{
    let mut parts: Vec<String> = Vec::new();
    let mut i: usize = 0;
    while i < ids.len()
        invariant
            i <= ids.len(),
            texts(parts@) == ids@.take(i as int).map_values(|id: u32| decimal(id as nat)),
        decreases ids.len() - i,
    {
        let ghost before = parts@;
        parts.push(decimal_string(ids[i] as u64));
        assert(texts(parts@) =~= texts(before).push(decimal(ids@[i as int] as nat)));
        assert(ids@.take(i + 1).map_values(|id: u32| decimal(id as nat)) =~= ids@.take(
            i as int,
        ).map_values(|id: u32| decimal(id as nat)).push(decimal(ids@[i as int] as nat)));
        i = i + 1;
    }
    assert(ids@.take(ids.len() as int) == ids@);
    join_strings(&parts, ",")
}

/// The path of a batch request for `ids` under `prefix` with `suffix`
/// after the ids; no request is made for no ids.
pub open spec fn batch_path_of(prefix: Seq<char>, ids: Seq<u32>, suffix: Seq<char>) -> Option<
    Seq<char>,
> {
    if ids.len() == 0 {
        None
    } else {
        Some(prefix + ids_csv(ids) + suffix)
    }
}

fn batch_path(prefix: &str, ids: &Vec<u32>, suffix: &str) -> (r: Option<String>)
    ensures
        match batch_path_of(prefix@, ids@, suffix@) {
            Some(p) => r matches Some(s) && s@ == p,
            None => r is None,
        },
{
    if ids.len() == 0 {
        return None;
    }
    let csv = ids_csv_exec(ids);
    let head = concat(prefix, csv.as_str());
    Some(concat(head.as_str(), suffix))
}

/// Path of `/v2/achievements` for `ids`; none for no ids.
pub fn achievements_batch_path(ids: &Vec<u32>) -> (r: Option<String>)
    ensures
        match batch_path_of("/v2/achievements?ids="@, ids@, ""@) {
            Some(p) => r matches Some(s) && s@ == p,
            None => r is None,
        },
{
    batch_path("/v2/achievements?ids=", ids, "")
}

/// Path of `/v2/items` (English names) for `ids`; none for no ids.
pub fn items_batch_path(ids: &Vec<u32>) -> (r: Option<String>)
    ensures
        match batch_path_of("/v2/items?ids="@, ids@, "&lang=en"@) {
            Some(p) => r matches Some(s) && s@ == p,
            None => r is None,
        },
{
    batch_path("/v2/items?ids=", ids, "&lang=en")
}

/// Path of `/v2/skins` (English names) for `ids`; none for no ids.
pub fn skins_batch_path(ids: &Vec<u32>) -> (r: Option<String>)
    ensures
        match batch_path_of("/v2/skins?ids="@, ids@, "&lang=en"@) {
            Some(p) => r matches Some(s) && s@ == p,
            None => r is None,
        },
{
    batch_path("/v2/skins?ids=", ids, "&lang=en")
}

/// Path of `/v2/currencies` (English names) for `ids`; none for no ids.
pub fn currencies_batch_path(ids: &Vec<u32>) -> (r: Option<String>)
    ensures
        match batch_path_of("/v2/currencies?ids="@, ids@, "&lang=en"@) {
            Some(p) => r matches Some(s) && s@ == p,
            None => r is None,
        },
{
    batch_path("/v2/currencies?ids=", ids, "&lang=en")
}

} // verus!
