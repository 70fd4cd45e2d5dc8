use seam_carving::color::{Color, CHANNEL_ONE};
use seam_carving::energy::isqrt;
use seam_carving::matrix::Matrix;
use seam_carving::seam::{find_seam, SeamError};

const W: u64 = CHANNEL_ONE;

fn image_from(rows: &[&[Color]]) -> Matrix<Color> {
    let h = rows.len();
    let w = if h == 0 { 0 } else { rows[0].len() };
    let mut m = Matrix::new(w, h, Color::black());
    for (y, row) in rows.iter().enumerate() {
        for (x, c) in row.iter().enumerate() {
            m.set(x, y, *c);
        }
    }
    m
}

fn white() -> Color {
    Color::new(W, W, W)
}

fn center_white() -> Matrix<Color> {
    let k = Color::black();
    image_from(&[&[k, k, k], &[k, white(), k], &[k, k, k]])
}

#[test]
fn matrix_set_and_read_back() {
    let mut m = Matrix::new(3, 2, 7u64);
    m.set(2, 1, 9);
    assert_eq!(m.width(), 3);
    assert_eq!(m.height(), 2);
    assert_eq!(m.at(2, 1), 9);
    assert_eq!(m.at(1, 1), 7);
    assert_eq!(m.cells(), &vec![7, 7, 7, 7, 7, 9]);
}

#[test]
fn brightness_uses_given_weights() {
    assert_eq!(Color::new(10, 20, 30).brightness(), 214040);
    assert_eq!(white().brightness(), 655350000);
    assert_eq!(Color::new(1, 0, 0).brightness(), 722);
    assert_eq!(Color::new(0, 0, 1).brightness(), 2126);
}

#[test]
fn isqrt_is_floor_of_root() {
    assert_eq!(isqrt(0), 0);
    assert_eq!(isqrt(1), 1);
    assert_eq!(isqrt(15), 3);
    assert_eq!(isqrt(16), 4);
    assert_eq!(isqrt(214741811250000000), 463402429);
    assert_eq!(isqrt(u128::MAX), u64::MAX);
}

#[test]
fn center_white_energy() {
    let e = center_white().energy();
    let big = 463402429u64;
    assert_eq!(e.width(), 3);
    assert_eq!(e.height(), 3);
    assert_eq!(e.cells(), &vec![0, big, 0, big, 0, big, 0, big, 0]);
}

#[test]
fn center_white_seam() {
    let (cost, seam) = center_white().best_seam().unwrap();
    assert_eq!(cost, 0);
    assert_eq!(seam, vec![0, 1, 0]);
}

#[test]
fn energy_is_never_negative() {
    let img = image_from(&[
        &[Color::new(0, 5, 9), Color::new(W, 0, 3), Color::new(4, 4, 4)],
        &[Color::new(70000, 1, 2), Color::new(0, 0, 0), Color::new(9, 8, 7)],
    ]);
    let e = img.energy();
    assert_eq!(e.cells().len(), 6);
    assert!(e.cells().iter().all(|v| *v as i128 >= 0));
    assert!(e.cells().iter().any(|v| *v > 0));
}

#[test]
fn uniform_image_has_zero_energy_and_zero_cost() {
    let c = Color::new(123, 4567, 890);
    let img = Matrix::new(4, 3, c);
    let e = img.energy();
    assert!(e.cells().iter().all(|v| *v == 0));
    let (cost, seam) = img.best_seam().unwrap();
    assert_eq!(cost, 0);
    assert_eq!(seam.len(), 3);
    for y in 1..seam.len() {
        assert!((seam[y] as i64 - seam[y - 1] as i64).abs() <= 1);
    }
}

#[test]
fn seam_has_one_column_per_row_in_range() {
    let mut img = Matrix::new(5, 4, Color::black());
    for y in 0..4 {
        for x in 0..5 {
            let v = ((x * 7 + y * 13) % 11) as u64 * 5000;
            img.set(x, y, Color::new(v, v / 2, W - v));
        }
    }
    let (_, seam) = img.best_seam().unwrap();
    assert_eq!(seam.len(), 4);
    assert!(seam.iter().all(|c| *c < 5));
    for y in 1..seam.len() {
        assert!((seam[y] as i64 - seam[y - 1] as i64).abs() <= 1);
    }
}

#[test]
fn seam_cost_is_sum_of_its_energies_and_least() {
    let mut img = Matrix::new(4, 3, Color::black());
    img.set(0, 0, white());
    img.set(3, 1, white());
    img.set(1, 2, Color::new(W / 2, W / 3, W / 4));
    let e = img.energy();
    let (cost, seam) = find_seam(&e).unwrap();
    let total: u128 = (0..3).map(|y| e.at(seam[y], y) as u128).sum();
    assert_eq!(cost, total);
    for a in 0..4usize {
        for b in a.saturating_sub(1)..(a + 2).min(4) {
            for c in b.saturating_sub(1)..(b + 2).min(4) {
                let other = e.at(a, 0) as u128 + e.at(b, 1) as u128 + e.at(c, 2) as u128;
                assert!(cost <= other);
            }
        }
    }
}

#[test]
fn ties_prefer_left_then_right() {
    let mut e = Matrix::new(3, 2, 0u64);
    e.set(0, 0, 5);
    e.set(1, 0, 5);
    e.set(2, 0, 5);
    let (cost, seam) = find_seam(&e).unwrap();
    assert_eq!(cost, 5);
    assert_eq!(seam, vec![1, 0]);
    let mut e2 = Matrix::new(2, 2, 0u64);
    e2.set(0, 0, 3);
    e2.set(1, 0, 3);
    let (_, seam2) = find_seam(&e2).unwrap();
    assert_eq!(seam2, vec![1, 0]);
}

#[test]
fn single_column_seam_is_all_zero() {
    let mut e = Matrix::new(1, 3, 0u64);
    e.set(0, 0, 2);
    e.set(0, 1, 3);
    e.set(0, 2, 4);
    let (cost, seam) = find_seam(&e).unwrap();
    assert_eq!(cost, 9);
    assert_eq!(seam, vec![0, 0, 0]);
}

#[test]
fn empty_energy_field_is_rejected() {
    let e = Matrix::new(0, 3, 0u64);
    assert_eq!(find_seam(&e), Err(SeamError::DimensionError));
    let e2 = Matrix::new(3, 0, 0u64);
    assert_eq!(find_seam(&e2), Err(SeamError::DimensionError));
}
