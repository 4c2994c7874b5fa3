use atomic_universe::{Canvas, Rgba};

#[test]
fn new_canvas_is_transparent_black() {
    let c = Canvas::new(4, 3);
    assert_eq!(c.width(), 4);
    assert_eq!(c.height(), 3);
    assert_eq!(c.as_bytes().len(), 48);
    assert!(c.as_bytes().iter().all(|b| *b == 0));
    assert_eq!(c.pixel(3, 2), Rgba { r: 0, g: 0, b: 0, a: 0 });
}

#[test]
fn put_pixel_writes_four_bytes_in_place() {
    let mut c = Canvas::new(4, 3);
    c.put_pixel(1, 2, Rgba { r: 1, g: 2, b: 3, a: 4 });
    let o = (2 * 4 + 1) * 4;
    assert_eq!(&c.as_bytes()[o..o + 4], &[1, 2, 3, 4]);
    assert_eq!(c.pixel(1, 2), Rgba { r: 1, g: 2, b: 3, a: 4 });
    let painted: usize = c.as_bytes().iter().filter(|b| **b != 0).count();
    assert_eq!(painted, 4);
    assert_eq!(c.pixel(2, 2), Rgba { r: 0, g: 0, b: 0, a: 0 });
}

#[test]
fn put_pixel_at_draws_only_on_the_canvas() {
    let mut c = Canvas::new(5, 5);
    assert!(c.put_pixel_at(4, 0, Rgba::opaque(9, 8, 7)));
    assert_eq!(c.pixel(4, 0), Rgba { r: 9, g: 8, b: 7, a: 255 });
    let before = c.as_bytes().to_vec();
    assert!(!c.put_pixel_at(5, 0, Rgba::opaque(1, 1, 1)));
    assert!(!c.put_pixel_at(-1, 2, Rgba::opaque(1, 1, 1)));
    assert!(!c.put_pixel_at(2, 5, Rgba::opaque(1, 1, 1)));
    assert!(!c.put_pixel_at(2, i32::MIN, Rgba::opaque(1, 1, 1)));
    assert_eq!(c.as_bytes(), &before[..]);
}

#[test]
fn clear_makes_every_byte_zero() {
    let mut c = Canvas::new(3, 3);
    c.put_pixel(0, 0, Rgba::opaque(255, 255, 255));
    c.put_pixel(2, 2, Rgba::fabric_shade(80));
    c.clear();
    assert_eq!(c.as_bytes().len(), 36);
    assert!(c.as_bytes().iter().all(|b| *b == 0));
}

#[test]
fn fabric_shade_quarters_the_green() {
    assert_eq!(Rgba::fabric_shade(200), Rgba { r: 200, g: 50, b: 20, a: 255 });
    assert_eq!(Rgba::fabric_shade(255), Rgba { r: 255, g: 63, b: 20, a: 255 });
    assert_eq!(Rgba::fabric_shade(3), Rgba { r: 3, g: 0, b: 20, a: 255 });
    assert_eq!(Rgba::fabric_shade(0), Rgba { r: 0, g: 0, b: 20, a: 255 });
}

#[test]
fn opaque_has_full_alpha() {
    assert_eq!(Rgba::opaque(10, 20, 30), Rgba { r: 10, g: 20, b: 30, a: 255 });
}
