use img_bri_groups::extract::find_bright_points;

#[test]
fn extraction_filters_and_orders() {
    // 3 wide, 2 high, row-major:
    //   50  10  90
    //   10  41  10
    let samples: Vec<u8> = vec![50, 10, 90, 10, 41, 10];
    let pts = find_bright_points(&samples, 3, 2, 40);
    assert_eq!(pts.len(), 3);
    assert_eq!((pts[0].x, pts[0].y, pts[0].v), (0, 0, 50));
    assert_eq!((pts[1].x, pts[1].y, pts[1].v), (2, 0, 90));
    assert_eq!((pts[2].x, pts[2].y, pts[2].v), (1, 1, 41));
}

#[test]
fn extraction_threshold_is_strict() {
    // a sample equal to the threshold is not a candidate
    let samples: Vec<u8> = vec![40, 41, 39, 40];
    let pts = find_bright_points(&samples, 2, 2, 40);
    assert_eq!(pts.len(), 1);
    assert_eq!((pts[0].x, pts[0].y, pts[0].v), (1, 0, 41));
}

#[test]
fn extraction_covers_every_pixel() {
    // everything above threshold: one candidate per pixel, in row-major order
    let samples: Vec<u8> = vec![100; 12];
    let pts = find_bright_points(&samples, 4, 3, 40);
    assert_eq!(pts.len(), 12);
    for (i, p) in pts.iter().enumerate() {
        assert_eq!(p.x as usize, i % 4);
        assert_eq!(p.y as usize, i / 4);
        assert_eq!(p.v, 100);
    }
}

#[test]
fn extraction_empty_grid() {
    let samples: Vec<u8> = Vec::new();
    let pts = find_bright_points(&samples, 5, 0, 40);
    assert!(pts.is_empty());
}
