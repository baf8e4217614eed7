//! From the features of a corpus to its items.

use crate::admin::{osm_admin_from, OsmAdmin, OsmAdminModel};
use crate::geometry::{Geometry, GeometryModel};
use crate::ned::{ned_timezone_from, NedTimezone, NedTimezoneModel};
use crate::osm::{osm_timezone_from, OsmTimezone, OsmTimezoneModel};
use crate::properties::{FeatureError, Properties, PropertyValue};
use crate::record::{models, ConcreteVec, Record};
use vstd::prelude::*;

verus! {

/// A feature of a corpus: its attributes and its geometry, which is already
/// simplified.
#[derive(Debug)]
pub struct Feature {
    /// The attributes of the feature.
    pub properties: Properties,
    /// The offset from UTC in seconds that the hours under `zone` stand for:
    /// the hours times 3600, rounded to the nearest whole number, and 0 where
    /// the feature has no such attribute. Only the Natural Earth corpus reads
    /// it.
    pub offset_seconds: i32,
    /// The geometry of the feature.
    pub geometry: Geometry,
}

/// A feature as a mathematical value.
pub struct FeatureModel {
    pub properties: Seq<(String, PropertyValue)>,
    pub offset_seconds: i32,
    pub geometry: GeometryModel,
}

impl View for Feature {
    type V = FeatureModel;

    open spec fn view(&self) -> FeatureModel {
        FeatureModel {
            properties: self.properties@,
            offset_seconds: self.offset_seconds,
            geometry: self.geometry@,
        }
    }
}

/// An item that is made from a feature and an id.
pub trait FromFeature: Record {
    /// The item that the feature becomes under the id `id`, or why it
    /// becomes none.
    spec fn made_from(id: usize, feature: FeatureModel) -> Result<Self::Model, FeatureError>;

    /// Makes the item with the id `id` from a feature.
    fn from_id_feature(id: usize, feature: Feature) -> (r: Result<Self, FeatureError>)
        ensures
            match Self::made_from(id, feature@) {
                Ok(m) => r matches Ok(item) && item.model() == m,
                Err(e) => r matches Err(f) && f == e,
            },
    ;
}

impl FromFeature for NedTimezone {
    open spec fn made_from(id: usize, feature: FeatureModel) -> Result<
        NedTimezoneModel,
        FeatureError,
    > {
        ned_timezone_from(id, feature.properties, feature.offset_seconds, feature.geometry)
    }

    fn from_id_feature(id: usize, feature: Feature) -> (r: Result<Self, FeatureError>) {
        NedTimezone::from_feature(id, &feature.properties, feature.offset_seconds, feature.geometry)
    }
}

impl FromFeature for OsmTimezone {
    open spec fn made_from(id: usize, feature: FeatureModel) -> Result<
        OsmTimezoneModel,
        FeatureError,
    > {
        osm_timezone_from(id, feature.properties, feature.geometry)
    }

    fn from_id_feature(id: usize, feature: Feature) -> (r: Result<Self, FeatureError>) {
        OsmTimezone::from_feature(id, &feature.properties, feature.geometry)
    }
}

impl FromFeature for OsmAdmin {
    open spec fn made_from(id: usize, feature: FeatureModel) -> Result<OsmAdminModel, FeatureError> {
        osm_admin_from(id, feature.properties, feature.geometry)
    }

    fn from_id_feature(id: usize, feature: Feature) -> (r: Result<Self, FeatureError>) {
        OsmAdmin::from_feature(id, &feature.properties, feature.geometry)
    }
}

/// The mathematical values of a run of features.
pub open spec fn feature_models(features: Seq<Feature>) -> Seq<FeatureModel> {
    Seq::new(features.len(), |i: int| features[i]@)
}

/// The first of the first `k` features that becomes no item, with the
/// reason: each feature is tried under its place as the id.
pub open spec fn first_failure<T: FromFeature>(features: Seq<FeatureModel>, k: nat) -> Option<
    FeatureError,
>
    decreases k,
{
    if k == 0 {
        None
    } else {
        match first_failure::<T>(features, (k - 1) as nat) {
            Some(e) => Some(e),
            None => match T::made_from((k - 1) as usize, features[k - 1]) {
                Ok(_) => None,
                Err(e) => Some(e),
            },
        }
    }
}

/// An error among the first features is the error of the whole run.
pub proof fn lemma_first_failure_stays<T: FromFeature>(
    features: Seq<FeatureModel>,
    k: nat,
    n: nat,
)
    requires
        k <= n,
        first_failure::<T>(features, k) is Some,
    ensures
        first_failure::<T>(features, n) == first_failure::<T>(features, k),
    decreases n,
{
    if k < n {
        lemma_first_failure_stays::<T>(features, k, (n - 1) as nat);
    }
}

/// Makes the items of a corpus from its features, in their order: the
/// feature at place `i` becomes the item with the id `i`. The first feature
/// that becomes no item gives the error.
#[verifier::loop_isolation(false)]
pub fn get_items_from_features<T: FromFeature>(features: Vec<Feature>) -> (r: Result<
    ConcreteVec<T>,
    FeatureError,
>)
    ensures
        match first_failure::<T>(feature_models(features@), features@.len()) {
            Some(e) => r matches Err(f) && f == e,
            None => r matches Ok(items) && items@.len() == features@.len() && forall|i: int|
                0 <= i < features@.len() ==> T::made_from(i as usize, features@[i]@) == Ok::<
                    T::Model,
                    FeatureError,
                >((#[trigger] items@[i]).model()),
        },
{
    let ghost all = feature_models(features@);
    let n = features.len();
    let mut rest = features;
    let mut reversed: Vec<Feature> = Vec::new();
    while rest.len() > 0
        invariant
            rest@.len() + reversed@.len() == n,
            forall|i: int| 0 <= i < rest@.len() ==> (#[trigger] rest@[i]) == features@[i],
            forall|i: int|
                0 <= i < reversed@.len() ==> (#[trigger] reversed@[i]) == features@[n - 1 - i],
        decreases rest@.len(),
    {
        let feature = rest.pop().unwrap();
        reversed.push(feature);
    }
    let mut items: Vec<T> = Vec::new();
    while reversed.len() > 0
        invariant
            items@.len() + reversed@.len() == n,
            forall|i: int|
                0 <= i < reversed@.len() ==> (#[trigger] reversed@[i]) == features@[n - 1 - i],
            first_failure::<T>(all, items@.len()) is None,
            forall|i: int|
                0 <= i < items@.len() ==> T::made_from(i as usize, features@[i]@) == Ok::<
                    T::Model,
                    FeatureError,
                >((#[trigger] items@[i]).model()),
        decreases reversed@.len(),
    {
        let id = items.len();
        let feature = reversed.pop().unwrap();
        assert(feature == features@[id as int]);
        assert(all[id as int] == feature@);
        match T::from_id_feature(id, feature) {
            Err(e) => {
                proof {
                    assert(first_failure::<T>(all, (id + 1) as nat) == Some(e));
                    lemma_first_failure_stays::<T>(all, (id + 1) as nat, n as nat);
                }
                return Err(e);
            },
            Ok(item) => {
                items.push(item);
            },
        }
    }
    Ok(ConcreteVec(items))
}

} // verus!
