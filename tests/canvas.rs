use ray_tracer::canvas::Canvas;
use ray_tracer::color::Rgb;
use ray_tracer::error::Error;

type Color = (f64, f64, f64);

const BLACK: Color = (0.0, 0.0, 0.0);

fn quantized(c: Color) -> Rgb {
    Rgb::quantize(
        (c.0 * 255.0).round() as i64,
        (c.1 * 255.0).round() as i64,
        (c.2 * 255.0).round() as i64,
    )
}

#[test]
fn canvas_canvas() {
    let mut canvas = Canvas::create(10, 20, BLACK);
    assert_eq!(10, canvas.width());
    assert_eq!(20, canvas.height());

    canvas.write(2, 3, (1.0, 0.0, 0.0)).unwrap();

    assert_eq!(1.0, canvas.pixel_at(2, 3).unwrap().0);
    assert_eq!(0.0, canvas.pixel_at(2, 3).unwrap().1);
    assert_eq!(0.0, canvas.pixel_at(2, 3).unwrap().2);
}

#[test]
fn canvas_as_string() {
    let mut canvas = Canvas::create(5, 3, BLACK);

    canvas.write(0, 0, (1.5, 0.0, 0.0)).unwrap();
    canvas.write(2, 1, (0.0, 0.5, 0.0)).unwrap();
    canvas.write(4, 2, (-0.5, 0.0, 1.0)).unwrap();

    assert_eq!(
        "P3\n5 3\n255\n255 0 0 0 0 0 0 0 0 0 0 0 0 0 0\n0 0 0 0 0 0 0 128 0 0 0 0 0 0 0\n0 0 0 0 0 0 0 0 0 0 0 0 0 0 255\n",
        canvas.map(quantized).to_ppm()
    );
}

#[test]
fn untouched_pixels_stay_black() {
    let mut canvas = Canvas::create(5, 3, BLACK);
    canvas.write(1, 1, (0.2, 0.4, 0.6)).unwrap();
    for y in 0..3 {
        for x in 0..5 {
            if (x, y) != (1, 1) {
                assert_eq!(BLACK, canvas.pixel_at(x, y).unwrap());
            }
        }
    }
    assert_eq!((0.2, 0.4, 0.6), canvas.pixel_at(1, 1).unwrap());
}

#[test]
fn write_out_of_range_is_an_index_error() {
    let mut canvas = Canvas::create(5, 3, BLACK);
    assert_eq!(Err(Error::IndexError), canvas.write(5, 0, (1.0, 1.0, 1.0)));
    assert_eq!(Err(Error::IndexError), canvas.write(0, 3, (1.0, 1.0, 1.0)));
    assert_eq!(Ok(()), canvas.write(4, 2, (1.0, 1.0, 1.0)));
}

#[test]
fn pixel_at_out_of_range_is_an_index_error() {
    let canvas = Canvas::create(5, 3, BLACK);
    assert_eq!(Err(Error::IndexError), canvas.pixel_at(5, 2));
    assert_eq!(Err(Error::IndexError), canvas.pixel_at(4, 3));
    assert_eq!(Ok(BLACK), canvas.pixel_at(4, 2));
}

#[test]
fn pixels_are_stored_row_by_row() {
    let mut canvas = Canvas::create(3, 2, 0u32);
    canvas.write(2, 0, 7).unwrap();
    canvas.write(0, 1, 9).unwrap();
    assert_eq!(&vec![0, 0, 7, 9, 0, 0], canvas.pixels());
}

#[test]
fn map_keeps_size_and_places() {
    let mut canvas = Canvas::create(2, 2, 1u32);
    canvas.write(1, 0, 5).unwrap();
    let doubled = canvas.map(|v: u32| v as u64 * 2);
    assert_eq!(2, doubled.width());
    assert_eq!(2, doubled.height());
    assert_eq!(Ok(10), doubled.pixel_at(1, 0));
    assert_eq!(Ok(2), doubled.pixel_at(0, 1));
}
