//! The gravity models and their constant tables.
use vstd::prelude::*;

use crate::fields::Decimal;

verus! {

/// The gravity model that a propagation uses: two legacy ones and WGS 84.
#[allow(non_camel_case_types)]
#[derive(Clone, Copy, Debug, PartialEq, Eq, Structural)]
pub enum WGSModel {
    WGS_72_LOW_PRECISION,
    WGS_72,
    WGS_84,
}

/// The constants of a gravity model, each an exact decimal: the
/// gravitational parameter (km^3/s^2), the equatorial radius (km), the
/// harmonics J2 to J4, and the reciprocal time unit `xke` (per minute)
/// where the model fixes it; elsewhere `xke` is `60 / sqrt(radius^3 / mu)`.
pub struct GravitationalConstants {
    pub mu: Decimal,
    pub radiusearthkm: Decimal,
    pub xke: Option<Decimal>,
    pub j2: Decimal,
    pub j3: Decimal,
    pub j4: Decimal,
}

/// The table of `model`.
pub open spec fn grav_table(model: WGSModel) -> ((int, int), (int, int), Option<(int, int)>, (int, int), (int, int), (int, int)) {
    match model {
        WGSModel::WGS_72_LOW_PRECISION => (
            (39860079964, -5),
            (6378135, -3),
            Some((743669161, -10)),
            (1082616, -9),
            (-253881, -11),
            (-165597, -11),
        ),
        WGSModel::WGS_72 => (
            (3986008, -1),
            (6378135, -3),
            None,
            (1082616, -9),
            (-253881, -11),
            (-165597, -11),
        ),
        WGSModel::WGS_84 => (
            (3986005, -1),
            (6378137, -3),
            None,
            (108262998905, -14),
            (-253215306, -14),
            (-161098761, -14),
        ),
    }
}

impl GravitationalConstants {
    pub open spec fn view(&self) -> ((int, int), (int, int), Option<(int, int)>, (int, int), (int, int), (int, int)) {
        (
            self.mu@,
            self.radiusearthkm@,
            match self.xke {
                Some(x) => Some(x@),
                None => None,
            },
            self.j2@,
            self.j3@,
            self.j4@,
        )
    }
}

fn d(mantissa: i64, exponent: i64) -> (r: Decimal)
    ensures
        r@ == (mantissa as int, exponent as int),
{
    Decimal { mantissa, exponent }
}

/// The constants of `model`.
pub fn get_grav_c(model: &WGSModel) -> (r: GravitationalConstants)
    ensures
        r@ == grav_table(*model),
{
    match model {
        WGSModel::WGS_72 => GravitationalConstants {
            mu: d(3986008, -1),
            radiusearthkm: d(6378135, -3),
            xke: None,
            j2: d(1082616, -9),
            j3: d(-253881, -11),
            j4: d(-165597, -11),
        },
        WGSModel::WGS_84 => GravitationalConstants {
            mu: d(3986005, -1),
            radiusearthkm: d(6378137, -3),
            xke: None,
            j2: d(108262998905, -14),
            j3: d(-253215306, -14),
            j4: d(-161098761, -14),
        },
        WGSModel::WGS_72_LOW_PRECISION => GravitationalConstants {
            mu: d(39860079964, -5),
            radiusearthkm: d(6378135, -3),
            xke: Some(d(743669161, -10)),
            j2: d(1082616, -9),
            j3: d(-253881, -11),
            j4: d(-165597, -11),
        },
    }
}

} // verus!
