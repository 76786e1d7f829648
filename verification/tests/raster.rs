use nowcast::arithmetic::Arithmetic;
use nowcast::binary64::Binary64;
use nowcast::forcing::Forcing;
use nowcast::grid::GridDims;
use nowcast::hazard::HazardField;
use nowcast::raster::{Error as RasterError, Georef, Raster, Transform, gridded_rain_from_rasters, hazard_to_raster, susceptibility_from_raster};
use surtgis_core::CRS;

struct Ieee;

fn f(v: Binary64) -> f64 {
    f64::from_bits(v.to_bits())
}

fn b(v: f64) -> Binary64 {
    Binary64::from_bits(v.to_bits())
}

impl Arithmetic for Ieee {
    fn plus(x: Binary64, y: Binary64) -> Binary64 {
        b(f(x) + f(y))
    }
    fn minus(x: Binary64, y: Binary64) -> Binary64 {
        b(f(x) - f(y))
    }
    fn times(x: Binary64, y: Binary64) -> Binary64 {
        b(f(x) * f(y))
    }
    fn over(x: Binary64, y: Binary64) -> Binary64 {
        b(f(x) / f(y))
    }
    fn power(x: Binary64, y: Binary64) -> Binary64 {
        b(f(x).powf(f(y)))
    }
    fn exponential(x: Binary64) -> Binary64 {
        b(f(x).exp())
    }
    fn logarithm(x: Binary64) -> Binary64 {
        b(f(x).ln())
    }
    fn root(x: Binary64) -> Binary64 {
        b(f(x).sqrt())
    }
    fn of_count(n: u64) -> Binary64 {
        b(n as f64)
    }
    fn ceiling(x: Binary64) -> Binary64 {
        b(f(x).ceil())
    }
    fn nearest(x: Binary64) -> Binary64 {
        b(f(x).round())
    }
    fn parse(text: &[char]) -> Option<Binary64> {
        text.iter().collect::<String>().parse::<f64>().ok().map(b)
    }
    fn show(x: Binary64) -> String {
        format!("{}", f(x))
    }
    fn show_rounded(x: Binary64, decimals: usize) -> String {
        format!("{:.*}", decimals, f(x))
    }
}

fn bs(v: &[f64]) -> Vec<Binary64> {
    v.iter().map(|x| b(*x)).collect()
}

fn fs(v: &[Binary64]) -> Vec<f64> {
    v.iter().map(|x| f(*x)).collect()
}

fn placed() -> Transform {
    Transform {
        origin_x: b(350_000.0),
        origin_y: b(6_300_000.0),
        pixel_width: b(30.0),
        pixel_height: b(30.0),
        row_rotation: b(0.0),
        col_rotation: b(0.0),
    }
}

fn raster_2x3(vals: [f32; 6], nodata: Option<f32>) -> Raster {
    Raster {
        dims: GridDims::new(3, 2),
        values: vals.iter().map(|v| b(*v as f64)).collect(),
        nodata: nodata.map(|v| b(v as f64)),
        transform: placed(),
        crs: None,
    }
}

#[test]
fn susceptibility_clamps_and_zeroes_nodata() {
    let r = raster_2x3([0.1, 0.5, 1.4, 0.0, 0.9, -1.0], Some(-1.0));
    let susc = susceptibility_from_raster(&r).unwrap();
    assert_eq!(susc.dims(), GridDims::new(3, 2));
    let expected = [0.1f32, 0.5, 1.0, 0.0, 0.9, 0.0];
    for (got, &exp) in fs(susc.values()).iter().zip(&expected) {
        assert!((got - exp as f64).abs() < 1e-6, "{got} vs {exp}");
    }
}

#[test]
fn gridded_rain_stacks_steps() {
    let r0 = raster_2x3([0.0, 1.0, 2.0, 3.0, 4.0, 5.0], None);
    let r1 = raster_2x3([10.0, 11.0, 12.0, 13.0, 14.0, 15.0], None);
    let rain = gridded_rain_from_rasters::<Ieee>(&[r0, r1], b(24.0)).unwrap();
    assert_eq!(rain.n_steps(), 2);
    assert_eq!(f(rain.depth_mm(0, 0)), 0.0);
    assert_eq!(f(rain.depth_mm(5, 0)), 5.0);
    assert_eq!(f(rain.depth_mm(2, 1)), 12.0);
}

#[test]
fn gridded_rain_rejects_a_misgeoreferenced_tile() {
    let r0 = || raster_2x3([0.0; 6], None);
    let mut shifted = raster_2x3([1.0; 6], None);
    shifted.transform.origin_x = b(350_900.0);
    assert!(matches!(gridded_rain_from_rasters::<Ieee>(&[r0(), shifted], b(24.0)), Err(RasterError::Georef(_))));

    let mut coarser = raster_2x3([1.0; 6], None);
    coarser.transform.pixel_width = b(90.0);
    coarser.transform.pixel_height = b(90.0);
    assert!(matches!(gridded_rain_from_rasters::<Ieee>(&[r0(), coarser], b(24.0)), Err(RasterError::Georef(_))));

    let other_crs = || {
        let mut r = raster_2x3([1.0; 6], None);
        r.crs = Some(CRS::from_epsg(32719));
        r
    };
    let mut base_crs = r0();
    base_crs.crs = Some(CRS::from_epsg(4326));
    assert!(matches!(
        gridded_rain_from_rasters::<Ieee>(&[base_crs, other_crs()], b(24.0)),
        Err(RasterError::Georef(_))
    ));
    assert!(gridded_rain_from_rasters::<Ieee>(&[r0(), other_crs()], b(24.0)).is_ok());
    // The same declared system is no obstacle.
    assert!(gridded_rain_from_rasters::<Ieee>(&[other_crs(), other_crs()], b(24.0)).is_ok());
}

#[test]
fn gridded_rain_zeroes_non_finite_pixels() {
    let r0 = raster_2x3([0.0, 1.0, 2.0, 3.0, 4.0, 5.0], None);
    let r1 = raster_2x3([10.0, f32::INFINITY, 12.0, 13.0, f32::NEG_INFINITY, 15.0], None);
    let rain = gridded_rain_from_rasters::<Ieee>(&[r0, r1], b(24.0)).unwrap();
    assert_eq!(f(rain.depth_mm(1, 1)), 0.0);
    assert_eq!(f(rain.depth_mm(4, 1)), 0.0);
    assert_eq!(f(rain.depth_mm(2, 1)), 12.0);
}

#[test]
fn raster_errors_name_their_cause() {
    let message = |rasters: Vec<Raster>, dt: f64| {
        gridded_rain_from_rasters::<Ieee>(&rasters, b(dt)).unwrap_err().message::<Ieee>()
    };
    let plain = || raster_2x3([0.0; 6], None);
    assert_eq!(message(vec![], 24.0), "grid shape mismatch: no rasters provided");
    let mut narrow = plain();
    narrow.dims = GridDims::new(6, 1);
    assert_eq!(message(vec![plain(), narrow], 24.0), "grid shape mismatch: raster 1 differs from raster 0");
    let mut rotated = plain();
    rotated.transform.col_rotation = b(0.5);
    assert_eq!(
        message(vec![plain(), plain(), rotated], 24.0),
        "georeference mismatch: raster 2 has a different geotransform than raster 0 (same shape, different grid)"
    );
    let crs = |code: u32| {
        let mut r = plain();
        r.crs = Some(CRS::from_epsg(code));
        r
    };
    assert_eq!(
        message(vec![crs(4326), crs(32719)], 24.0),
        "georeference mismatch: raster 1 has a different CRS than raster 0"
    );
    assert_eq!(message(vec![plain()], 0.0), "invalid parameter `dt_hours`: must be > 0, got 0");
    assert_eq!(RasterError::SurtGis("no such file".to_string()).message::<Ieee>(), "surtgis: no such file");
}

#[test]
fn noise_in_a_transform_is_tolerated() {
    let mut noisy = raster_2x3([1.0; 6], None);
    noisy.transform.origin_y = b(6_300_000.0 * (1.0 + 1e-10));
    let r0 = raster_2x3([0.0; 6], None);
    assert!(gridded_rain_from_rasters::<Ieee>(&[r0, noisy], b(24.0)).is_ok());
}

#[test]
fn a_hazard_field_keeps_the_georeference() {
    let mut source = raster_2x3([0.0; 6], Some(-1.0));
    source.crs = Some(CRS::from_epsg(32719));
    let georef = Georef::of(&source);
    let values = bs(&[0.0, 0.25, 0.5, 0.75, 0.9, 1.0]);
    let field = HazardField::new(0, GridDims::new(3, 2), values.clone()).unwrap();
    let out = hazard_to_raster(&field, &georef);
    assert_eq!((out.dims, out.nodata, out.transform), (source.dims, None, source.transform));
    assert_eq!(out.crs, source.crs);
    assert_eq!(out.crs.as_ref().unwrap().epsg(), Some(32719));
    // What is written out reads back as it was.
    assert_eq!(susceptibility_from_raster(&out).unwrap().values(), values.as_slice());
    assert_eq!(georef.clone().crs, georef.crs);
}
