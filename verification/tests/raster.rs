use asmimg::raster::Raster;

#[test]
fn raster_needs_one_pixel_for_each_place() {
    assert!(Raster::from_vec(2, 3, vec![0u8; 6]).is_some());
    assert!(Raster::from_vec(2, 3, vec![0u8; 5]).is_none());
    assert!(Raster::from_vec(2, 3, vec![0u8; 7]).is_none());
    assert!(Raster::from_vec(0, 3, Vec::<u8>::new()).is_some());
    assert!(Raster::from_vec(0, 0, vec![0u8; 1]).is_none());
}

#[test]
fn raster_places_are_addressed_by_column_and_row() {
    let raster = Raster::from_vec(3, 2, vec![10u8, 11, 12, 20, 21, 22]).unwrap();
    assert_eq!(raster.width(), 3);
    assert_eq!(raster.height(), 2);
    assert_eq!(raster.dimensions(), (3, 2));
    assert_eq!(raster.get_pixel(0, 0), Some(10));
    assert_eq!(raster.get_pixel(2, 0), Some(12));
    assert_eq!(raster.get_pixel(0, 1), Some(20));
    assert_eq!(raster.get_pixel(2, 1), Some(22));
    assert_eq!(raster.get_pixel(3, 0), None);
    assert_eq!(raster.get_pixel(0, 2), None);
    assert_eq!(raster.pixels(), &vec![10u8, 11, 12, 20, 21, 22]);
    assert_eq!(raster.into_vec(), vec![10u8, 11, 12, 20, 21, 22]);
}
