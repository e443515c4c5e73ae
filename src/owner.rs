use crate::asset::{Asset, AssetId, AssetStatus};
use crate::contract::{Contract, OracleError};
use crate::ema::{AssetEma, DurationSec};
use crate::oracle::Oracle;
use vstd::prelude::*;

verus! {

/// Whether some average of `emas` has the given period.
pub open spec fn has_period(emas: Seq<AssetEma>, period_sec: DurationSec) -> bool {
    exists|j: int| 0 <= j < emas.len() && (#[trigger] emas[j]).period_sec == period_sec
}

/// The averages of `emas` whose period is not `period_sec`, in order.
pub open spec fn without_period(emas: Seq<AssetEma>, period_sec: DurationSec) -> Seq<AssetEma>
    decreases emas.len(),
{
    if emas.len() == 0 {
        Seq::empty()
    } else {
        let rest = without_period(emas.drop_last(), period_sec);
        if emas.last().period_sec != period_sec {
            rest.push(emas.last())
        } else {
            rest
        }
    }
}

impl Contract {
    /// Succeeds exactly when `caller` is the owner.
    pub fn assert_owner(&self, caller: &String) -> (r: Result<(), OracleError>)
        ensures
            r == if caller@ == self.owner_id@ {
                Ok::<(), OracleError>(())
            } else {
                Err(OracleError::NotOwner)
            },
    {
        if *caller == self.owner_id {
            Ok(())
        } else {
            Err(OracleError::NotOwner)
        }
    }

    pub fn get_owner_id(&self) -> (r: String)
        ensures
            r == self.owner_id,
    {
        self.owner_id.clone()
    }

    pub fn get_near_claim_amount(&self) -> (r: u128)
        ensures
            r == self.near_claim_amount,
    {
        self.near_claim_amount
    }

    /// Sets the recent window; for the owner only.
    pub fn set_recency_duration_sec(&mut self, caller: &String, recency_duration_sec: DurationSec) -> (r:
        Result<(), OracleError>)
        ensures
            r is Ok <==> caller@ == old(self).owner_id@,
            r is Err ==> r == Err::<(), OracleError>(OracleError::NotOwner) && *final(self)
                == *old(self),
            r is Ok ==> *final(self) == (Contract { recency_duration_sec, ..*old(self) }),
    {
        self.assert_owner(caller)?;
        self.recency_duration_sec = recency_duration_sec;
        Ok(())
    }

    /// Sets the reward per claim; for the owner only.
    pub fn update_near_claim_amount(&mut self, caller: &String, near_claim_amount: u128) -> (r: Result<
        (),
        OracleError,
    >)
        ensures
            r is Ok <==> caller@ == old(self).owner_id@,
            r is Err ==> r == Err::<(), OracleError>(OracleError::NotOwner) && *final(self)
                == *old(self),
            r is Ok ==> *final(self) == (Contract { near_claim_amount, ..*old(self) }),
    {
        self.assert_owner(caller)?;
        self.near_claim_amount = near_claim_amount;
        Ok(())
    }

    /// Hands the contract to a new owner; for the owner only.
    pub fn update_owner_id(&mut self, caller: &String, owner_id: String) -> (r: Result<(), OracleError>)
        ensures
            r is Ok <==> caller@ == old(self).owner_id@,
            r is Err ==> r == Err::<(), OracleError>(OracleError::NotOwner) && *final(self)
                == *old(self),
            r is Ok ==> *final(self) == (Contract { owner_id, ..*old(self) }),
    {
        self.assert_owner(caller)?;
        self.owner_id = owner_id;
        Ok(())
    }

    /// Registers a reporter with a fresh record; for the owner only.
    pub fn add_oracle(&mut self, caller: &String, account_id: String) -> (r: Result<(), OracleError>)
        requires
            old(self).wf(),
        ensures
            final(self).wf(),
            r == if caller@ != old(self).owner_id@ {
                Err(OracleError::NotOwner)
            } else if old(self).oracles.has_key(account_id@) {
                Err(OracleError::OracleExists)
            } else {
                Ok::<(), OracleError>(())
            },
            r is Err ==> *final(self) == *old(self),
            r is Ok ==> {
                &&& final(self).oracles.key_seq() == old(self).oracles.key_seq().push(account_id@)
                &&& final(self).oracles.value_seq() == old(self).oracles.value_seq().push(
                    Oracle { last_report: 0, price_reports: 0, last_near_claim: 0 },
                )
                &&& final(self).assets == old(self).assets
                &&& final(self).recency_duration_sec == old(self).recency_duration_sec
                &&& final(self).owner_id == old(self).owner_id
                &&& final(self).near_claim_amount == old(self).near_claim_amount
            },
    {
        self.assert_owner(caller)?;
        if self.oracles.find(&account_id).is_some() {
            return Err(OracleError::OracleExists);
        }
        self.oracles.insert(account_id, Oracle::new());
        Ok(())
    }

    /// Unregisters a reporter; for the owner only.
    pub fn remove_oracle(&mut self, caller: &String, account_id: &String) -> (r: Result<(), OracleError>)
        requires
            old(self).wf(),
        ensures
            final(self).wf(),
            r == if caller@ != old(self).owner_id@ {
                Err(OracleError::NotOwner)
            } else if !old(self).oracles.has_key(account_id@) {
                Err(OracleError::UnknownOracle)
            } else {
                Ok::<(), OracleError>(())
            },
            r is Err ==> *final(self) == *old(self),
            r is Ok ==> {
                let i = old(self).oracles.index_of(account_id@);
                let ks = old(self).oracles.key_seq();
                let vs = old(self).oracles.value_seq();
                &&& final(self).oracles.key_seq() == ks.update(i, ks.last()).drop_last()
                &&& final(self).oracles.value_seq() == vs.update(i, vs.last()).drop_last()
                &&& final(self).assets == old(self).assets
                &&& final(self).recency_duration_sec == old(self).recency_duration_sec
                &&& final(self).owner_id == old(self).owner_id
                &&& final(self).near_claim_amount == old(self).near_claim_amount
            },
    {
        self.assert_owner(caller)?;
        match self.oracles.remove(account_id) {
            Some(_) => Ok(()),
            None => Err(OracleError::UnknownOracle),
        }
    }

    /// Adds an active asset with no reports and no averages; for the owner
    /// only.
    pub fn add_asset(&mut self, caller: &String, asset_id: AssetId) -> (r: Result<(), OracleError>)
        requires
            old(self).wf(),
        ensures
            final(self).wf(),
            r == if caller@ != old(self).owner_id@ {
                Err(OracleError::NotOwner)
            } else if old(self).assets.has_key(asset_id@) {
                Err(OracleError::AssetExists)
            } else {
                Ok::<(), OracleError>(())
            },
            r is Err ==> *final(self) == *old(self),
            r is Ok ==> {
                &&& final(self).assets.key_seq() == old(self).assets.key_seq().push(asset_id@)
                &&& final(self).assets.value_seq().len() == old(self).assets.value_seq().len() + 1
                &&& final(self).assets.value_seq().drop_last() == old(self).assets.value_seq()
                &&& final(self).assets.value_seq().last()@.status == AssetStatus::Active
                &&& final(self).assets.value_seq().last()@.reports.len() == 0
                &&& final(self).assets.value_seq().last()@.emas.len() == 0
                &&& final(self).oracles == old(self).oracles
                &&& final(self).recency_duration_sec == old(self).recency_duration_sec
                &&& final(self).owner_id == old(self).owner_id
                &&& final(self).near_claim_amount == old(self).near_claim_amount
            },
    {
        self.assert_owner(caller)?;
        if self.assets.find(&asset_id).is_some() {
            return Err(OracleError::AssetExists);
        }
        self.assets.insert(asset_id, Asset::new());
        proof {
            assert(self.assets.value_seq().drop_last() =~= old(self).assets.value_seq());
        }
        Ok(())
    }

    /// Removes an asset; for the owner only.
    pub fn remove_asset(&mut self, caller: &String, asset_id: &AssetId) -> (r: Result<(), OracleError>)
        requires
            old(self).wf(),
        ensures
            final(self).wf(),
            r == if caller@ != old(self).owner_id@ {
                Err(OracleError::NotOwner)
            } else if !old(self).assets.has_key(asset_id@) {
                Err(OracleError::UnknownAsset)
            } else {
                Ok::<(), OracleError>(())
            },
            r is Err ==> *final(self) == *old(self),
            r is Ok ==> {
                let i = old(self).assets.index_of(asset_id@);
                let ks = old(self).assets.key_seq();
                let vs = old(self).assets.value_seq();
                &&& final(self).assets.key_seq() == ks.update(i, ks.last()).drop_last()
                &&& final(self).assets.value_seq() == vs.update(i, vs.last()).drop_last()
                &&& final(self).oracles == old(self).oracles
                &&& final(self).recency_duration_sec == old(self).recency_duration_sec
                &&& final(self).owner_id == old(self).owner_id
                &&& final(self).near_claim_amount == old(self).near_claim_amount
            },
    {
        self.assert_owner(caller)?;
        match self.assets.remove(asset_id) {
            Some(_) => Ok(()),
            None => Err(OracleError::UnknownAsset),
        }
    }

    /// Attaches a moving average of a new period to an asset; for the owner
    /// only.
    pub fn add_asset_ema(&mut self, caller: &String, asset_id: &AssetId, period_sec: DurationSec) -> (r:
        Result<(), OracleError>)
        requires
            old(self).wf(),
        ensures
            final(self).wf(),
            r == if caller@ != old(self).owner_id@ {
                Err(OracleError::NotOwner)
            } else if !old(self).assets.has_key(asset_id@) {
                Err(OracleError::UnknownAsset)
            } else if has_period(old(self).stored_asset(asset_id@)->0.emas, period_sec) {
                Err(OracleError::EmaExists)
            } else {
                Ok::<(), OracleError>(())
            },
            r is Err ==> *final(self) == *old(self),
            r is Ok ==> {
                let i = old(self).assets.index_of(asset_id@);
                let before = old(self).assets.value_seq()[i]@;
                &&& final(self).assets.key_seq() == old(self).assets.key_seq()
                &&& final(self).assets.value_seq().len() == old(self).assets.value_seq().len()
                &&& forall|j: int|
                    0 <= j < old(self).assets.value_seq().len() && j != i ==> #[trigger] final(self).assets.value_seq()[j] == old(self).assets.value_seq()[j]
                &&& final(self).assets.value_seq()[i]@.status == before.status
                &&& final(self).assets.value_seq()[i]@.reports == before.reports
                &&& final(self).assets.value_seq()[i]@.emas == before.emas.push(
                    AssetEma { period_sec, timestamp: 0, price: None },
                )
                &&& final(self).oracles == old(self).oracles
                &&& final(self).recency_duration_sec == old(self).recency_duration_sec
                &&& final(self).owner_id == old(self).owner_id
                &&& final(self).near_claim_amount == old(self).near_claim_amount
            },
    {
        self.assert_owner(caller)?;
        let ai = match self.assets.find(asset_id) {
            Some(i) => i,
            None => return Err(OracleError::UnknownAsset),
        };
        let emas = &self.assets.value_at(ai).emas;
        let mut j: usize = 0;
        while j < emas.len()
            invariant
                self.wf(),
                *self == *old(self),
                caller@ == old(self).owner_id@,
                old(self).assets.has_key(asset_id@),
                emas@ == old(self).stored_asset(asset_id@)->0.emas,
                j <= emas@.len(),
                forall|k: int| 0 <= k < j ==> (#[trigger] emas@[k]).period_sec != period_sec,
            decreases emas@.len() - j,
        {
            if emas[j].period_sec == period_sec {
                proof {
                    assert(has_period(emas@, period_sec));
                }
                return Err(OracleError::EmaExists);
            }
            j = j + 1;
        }
        let mut asset = self.assets.replace_at(ai, Asset::new());
        asset.emas.push(AssetEma::new(period_sec));
        self.assets.replace_at(ai, asset);
        proof {
            assert forall|j: int|
                0 <= j < old(self).assets.value_seq().len() && j != ai implies #[trigger] self.assets.value_seq()[j]
                == old(self).assets.value_seq()[j] by {}
        }
        Ok(())
    }

    /// Detaches the moving average of the given period from an asset; for
    /// the owner only.
    pub fn remove_asset_ema(&mut self, caller: &String, asset_id: &AssetId, period_sec: DurationSec) -> (r:
        Result<(), OracleError>)
        requires
            old(self).wf(),
        ensures
            final(self).wf(),
            r == if caller@ != old(self).owner_id@ {
                Err(OracleError::NotOwner)
            } else if !old(self).assets.has_key(asset_id@) {
                Err(OracleError::UnknownAsset)
            } else if !has_period(old(self).stored_asset(asset_id@)->0.emas, period_sec) {
                Err(OracleError::UnknownEma)
            } else {
                Ok::<(), OracleError>(())
            },
            r is Err ==> *final(self) == *old(self),
            r is Ok ==> {
                let i = old(self).assets.index_of(asset_id@);
                let before = old(self).assets.value_seq()[i]@;
                &&& final(self).assets.key_seq() == old(self).assets.key_seq()
                &&& final(self).assets.value_seq().len() == old(self).assets.value_seq().len()
                &&& forall|j: int|
                    0 <= j < old(self).assets.value_seq().len() && j != i ==> #[trigger] final(self).assets.value_seq()[j] == old(self).assets.value_seq()[j]
                &&& final(self).assets.value_seq()[i]@.status == before.status
                &&& final(self).assets.value_seq()[i]@.reports == before.reports
                &&& final(self).assets.value_seq()[i]@.emas == without_period(before.emas, period_sec)
                &&& final(self).oracles == old(self).oracles
                &&& final(self).recency_duration_sec == old(self).recency_duration_sec
                &&& final(self).owner_id == old(self).owner_id
                &&& final(self).near_claim_amount == old(self).near_claim_amount
            },
    {
        self.assert_owner(caller)?;
        let ai = match self.assets.find(asset_id) {
            Some(i) => i,
            None => return Err(OracleError::UnknownAsset),
        };
        let emas = &self.assets.value_at(ai).emas;
        let ghost all = emas@;
        assert(all == old(self).stored_asset(asset_id@)->0.emas);
        let mut kept: Vec<AssetEma> = Vec::new();
        let mut found = false;
        let mut j: usize = 0;
        while j < emas.len()
            invariant
                self.wf(),
                *self == *old(self),
                all == emas@,
                j <= emas@.len(),
                kept@ == without_period(emas@.subrange(0, j as int), period_sec),
                found <==> exists|k: int| 0 <= k < j && (#[trigger] emas@[k]).period_sec == period_sec,
            decreases emas@.len() - j,
        {
            proof {
                assert(emas@.subrange(0, j + 1).drop_last() =~= emas@.subrange(0, j as int));
            }
            if emas[j].period_sec == period_sec {
                found = true;
            } else {
                kept.push(emas[j]);
            }
            j = j + 1;
        }
        proof {
            assert(emas@.subrange(0, j as int) =~= emas@);
        }
        if !found {
            return Err(OracleError::UnknownEma);
        }
        let mut asset = self.assets.replace_at(ai, Asset::new());
        asset.emas = kept;
        self.assets.replace_at(ai, asset);
        proof {
            assert forall|j: int|
                0 <= j < old(self).assets.value_seq().len() && j != ai implies #[trigger] self.assets.value_seq()[j]
                == old(self).assets.value_seq()[j] by {}
        }
        Ok(())
    }

    /// Sets an asset's status. Says whether the asset is stored; nothing
    /// changes when it is not.
    pub fn internal_set_asset_status(&mut self, asset_id: &AssetId, status: AssetStatus) -> (r: bool)
        requires
            old(self).wf(),
        ensures
            final(self).wf(),
            r == old(self).assets.has_key(asset_id@),
            !r ==> *final(self) == *old(self),
            r ==> {
                let i = old(self).assets.index_of(asset_id@);
                let before = old(self).assets.value_seq()[i]@;
                &&& final(self).assets.key_seq() == old(self).assets.key_seq()
                &&& final(self).assets.value_seq().len() == old(self).assets.value_seq().len()
                &&& forall|j: int|
                    0 <= j < old(self).assets.value_seq().len() && j != i ==> #[trigger] final(self).assets.value_seq()[j] == old(self).assets.value_seq()[j]
                &&& final(self).assets.value_seq()[i]@ == (crate::asset::AssetView { status, ..before })
                &&& final(self).oracles == old(self).oracles
                &&& final(self).recency_duration_sec == old(self).recency_duration_sec
                &&& final(self).owner_id == old(self).owner_id
                &&& final(self).near_claim_amount == old(self).near_claim_amount
            },
    {
        match self.assets.find(asset_id) {
            Some(ai) => {
                let mut asset = self.assets.replace_at(ai, Asset::new());
                asset.status = status;
                self.assets.replace_at(ai, asset);
                proof {
                    assert forall|j: int|
                        0 <= j < old(self).assets.value_seq().len() && j != ai implies #[trigger] self.assets.value_seq()[j]
                        == old(self).assets.value_seq()[j] by {}
                }
                true
            },
            None => false,
        }
    }

    /// Hides an asset from price queries; for registered reporters only. An
    /// unknown asset is left as it is.
    pub fn hide_asset(&mut self, caller: &String, asset_id: &AssetId) -> (r: Result<(), OracleError>)
        requires
            old(self).wf(),
        ensures
            final(self).wf(),
            r == if old(self).oracles.has_key(caller@) {
                Ok::<(), OracleError>(())
            } else {
                Err(OracleError::NotAnOracle)
            },
            r is Err || !old(self).assets.has_key(asset_id@) ==> *final(self) == *old(self),
            r is Ok && old(self).assets.has_key(asset_id@) ==> {
                let i = old(self).assets.index_of(asset_id@);
                &&& final(self).assets.key_seq() == old(self).assets.key_seq()
                &&& final(self).assets.value_seq()[i]@.status == AssetStatus::Hidden
                &&& final(self).assets.value_seq()[i]@.reports == old(self).assets.value_seq()[i]@.reports
                &&& final(self).assets.value_seq()[i]@.emas == old(self).assets.value_seq()[i]@.emas
                &&& forall|j: int|
                    0 <= j < old(self).assets.value_seq().len() && j != i ==> #[trigger] final(self).assets.value_seq()[j] == old(self).assets.value_seq()[j]
                &&& final(self).oracles == old(self).oracles
            },
    {
        if self.oracles.find(caller).is_none() {
            return Err(OracleError::NotAnOracle);
        }
        self.internal_set_asset_status(asset_id, AssetStatus::Hidden);
        Ok(())
    }
}

} // verus!
