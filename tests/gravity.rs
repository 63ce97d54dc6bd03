use sgp4::fields::Decimal;
use sgp4::utils::{get_grav_c, WGSModel};

fn dec(mantissa: i64, exponent: i64) -> Decimal {
    Decimal { mantissa, exponent }
}

#[test]
fn wgs84_table() {
    let g = get_grav_c(&WGSModel::WGS_84);
    assert_eq!(g.mu, dec(3986005, -1));
    assert_eq!(g.radiusearthkm, dec(6378137, -3));
    assert_eq!(g.xke, None);
    assert_eq!(g.j2, dec(108262998905, -14));
    assert_eq!(g.j3, dec(-253215306, -14));
    assert_eq!(g.j4, dec(-161098761, -14));
}

#[test]
fn wgs72_tables() {
    let g = get_grav_c(&WGSModel::WGS_72);
    assert_eq!(g.mu, dec(3986008, -1));
    assert_eq!(g.radiusearthkm, dec(6378135, -3));
    assert_eq!(g.xke, None);
    let l = get_grav_c(&WGSModel::WGS_72_LOW_PRECISION);
    assert_eq!(l.mu, dec(39860079964, -5));
    assert_eq!(l.xke, Some(dec(743669161, -10)));
    assert_eq!(l.j2, g.j2);
    assert_eq!(l.j3, dec(-253881, -11));
    assert_eq!(l.j4, dec(-165597, -11));
}
