use seam_carving::carve::Image;
use seam_carving::color::{Color, CHANNEL_ONE};
use seam_carving::matrix::Matrix;
use seam_carving::seam::SeamError;

fn numbered(w: usize, h: usize) -> Image {
    let mut img = Matrix::new(w, h, Color::black());
    for y in 0..h {
        for x in 0..w {
            let v = (y * w + x) as u64;
            img.set(x, y, Color::new(v * 1000, (v * 3571) % CHANNEL_ONE, v));
        }
    }
    img
}

#[test]
fn carving_zero_columns_is_identity() {
    let img = numbered(4, 3);
    let out = img.carven(0).unwrap();
    assert_eq!(out.width(), 4);
    assert_eq!(out.height(), 3);
    assert_eq!(out.cells(), img.cells());
}

#[test]
fn carving_one_column_keeps_pixels_off_the_seam() {
    let img = numbered(4, 3);
    let (_, seam) = img.best_seam().unwrap();
    let out = img.carven(1).unwrap();
    assert_eq!(out.width(), 3);
    assert_eq!(out.height(), 3);
    for y in 0..3 {
        for x in 0..3 {
            let src = if x < seam[y] { x } else { x + 1 };
            assert_eq!(out.at(x, y), img.at(src, y));
        }
    }
}

#[test]
fn remove_seam_drops_one_cell_per_row() {
    let img = numbered(3, 2);
    let out = img.remove_seam(&vec![2, 0]);
    assert_eq!(out.width(), 2);
    assert_eq!(out.at(0, 0), img.at(0, 0));
    assert_eq!(out.at(1, 0), img.at(1, 0));
    assert_eq!(out.at(0, 1), img.at(1, 1));
    assert_eq!(out.at(1, 1), img.at(2, 1));
}

#[test]
fn carve_matches_best_seam_removal() {
    let img = numbered(5, 4);
    let (_, seam) = img.best_seam().unwrap();
    let expected = img.remove_seam(&seam);
    let out = img.carve().unwrap();
    assert_eq!(out.cells(), expected.cells());
}

#[test]
fn carving_repeats_one_step_at_a_time() {
    let img = numbered(5, 3);
    let twice = img.carve().unwrap().carve().unwrap();
    let out = img.carven(2).unwrap();
    assert_eq!(out.width(), 3);
    assert_eq!(out.cells(), twice.cells());
}

#[test]
fn carving_too_many_columns_is_rejected() {
    let img = numbered(3, 2);
    assert_eq!(img.carven(3).err(), Some(SeamError::DimensionError));
    assert_eq!(img.carven(7).err(), Some(SeamError::DimensionError));
    assert!(img.carven(2).is_ok());
}

#[test]
fn carving_zero_height_image_is_rejected() {
    let img = Matrix::new(3, 0, Color::black());
    assert_eq!(img.carven(1).err(), Some(SeamError::DimensionError));
    assert_eq!(img.carve().err(), Some(SeamError::DimensionError));
    assert!(img.carven(0).is_ok());
}

#[test]
fn carving_avoids_the_bright_column() {
    let mut img = Matrix::new(3, 3, Color::black());
    for y in 0..3 {
        img.set(2, y, Color::new(CHANNEL_ONE, CHANNEL_ONE, CHANNEL_ONE));
    }
    let (cost, seam) = img.best_seam().unwrap();
    assert_eq!(cost, 0);
    assert_eq!(seam, vec![0, 0, 0]);
    let out = img.carve().unwrap();
    assert_eq!(out.at(1, 0), Color::new(CHANNEL_ONE, CHANNEL_ONE, CHANNEL_ONE));
}

#[test]
fn carving_handles_largest_channels() {
    let top = seam_carving::color::MAX_CHANNEL;
    let mut img = Matrix::new(3, 2, Color::black());
    img.set(1, 0, Color::new(top, top, top));
    img.set(2, 1, Color::new(top, 0, top));
    let e = img.energy();
    assert!(e.cells().iter().all(|v| *v < (1u64 << 62)));
    let out = img.carven(2).unwrap();
    assert_eq!(out.width(), 1);
    assert_eq!(out.height(), 2);
}
