use image::{DynamicImage, GrayImage, RgbImage};
use ppm_image::raster::Raster;

#[test]
fn raster_needs_exact_size() {
    assert!(Raster::new(2, 1, vec![0; 6]).is_some());
    assert!(Raster::new(2, 1, vec![0; 5]).is_none());
    assert!(Raster::new(2, 1, vec![0; 7]).is_none());
    assert!(Raster::new(0, 5, vec![]).is_some());
    assert!(Raster::new(u32::MAX, u32::MAX, vec![]).is_none());
    let r = Raster::new(1, 2, vec![1, 2, 3, 4, 5, 6]).unwrap();
    assert_eq!((r.width(), r.height()), (1, 2));
    assert_eq!(r.data(), &vec![1, 2, 3, 4, 5, 6]);
    assert_eq!(r.into_data(), vec![1, 2, 3, 4, 5, 6]);
}

#[test]
fn raster_from_rgb_image() {
    let img = DynamicImage::ImageRgb8(RgbImage::from_raw(2, 1, vec![1, 2, 3, 4, 5, 6]).unwrap());
    let r = Raster::from_image(&img);
    assert_eq!((r.width(), r.height()), (2, 1));
    assert_eq!(r.data(), &vec![1, 2, 3, 4, 5, 6]);
}

#[test]
fn raster_from_gray_image() {
    let img = DynamicImage::ImageLuma8(GrayImage::from_raw(1, 2, vec![7, 200]).unwrap());
    let r = Raster::from_image(&img);
    assert_eq!((r.width(), r.height()), (1, 2));
    assert_eq!(r.data(), &vec![7, 7, 7, 200, 200, 200]);
}
