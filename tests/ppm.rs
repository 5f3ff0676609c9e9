use ray_tracer::canvas::Canvas;
use ray_tracer::color::{quantize_channel, Rgb};
use ray_tracer::parse::parse;
use ray_tracer::ppm::{push_decimal, serialize};

fn rgb(red: u8, green: u8, blue: u8) -> Rgb {
    Rgb { red, green, blue }
}

#[test]
fn quantization_saturates() {
    let c = Rgb::quantize(
        (-0.5f64 * 255.0).round() as i64,
        (0.0f64 * 255.0).round() as i64,
        (1.5f64 * 255.0).round() as i64,
    );
    assert_eq!(rgb(0, 0, 255), c);
}

#[test]
fn quantize_channel_values() {
    assert_eq!(0, quantize_channel(-1));
    assert_eq!(0, quantize_channel(i64::MIN));
    assert_eq!(0, quantize_channel(0));
    assert_eq!(128, quantize_channel(128));
    assert_eq!(255, quantize_channel(255));
    assert_eq!(255, quantize_channel(256));
    assert_eq!(255, quantize_channel(i64::MAX));
}

#[test]
fn quantized_values_quantize_to_themselves() {
    for v in 0u8..=255 {
        assert_eq!(v, quantize_channel(v as i64));
    }
}

#[test]
fn color_as_string() {
    assert_eq!("255 0 0", rgb(255, 0, 0).as_string());
    assert_eq!("7 128 42", rgb(7, 128, 42).as_string());
}

#[test]
fn decimal_text() {
    let mut s = String::from("x");
    push_decimal(&mut s, 0);
    push_decimal(&mut s, 10);
    push_decimal(&mut s, 255);
    push_decimal(&mut s, u64::MAX);
    assert_eq!("x01025518446744073709551615", s);
}

#[test]
fn empty_canvas_is_header_only() {
    let canvas = Canvas::create(0, 0, rgb(1, 2, 3));
    assert_eq!("P3\n0 0\n255\n", canvas.to_ppm());
}

#[test]
fn five_triples_fill_one_line() {
    let canvas = Canvas::create(5, 1, rgb(1, 2, 3));
    assert_eq!(
        "P3\n5 1\n255\n1 2 3 1 2 3 1 2 3 1 2 3 1 2 3\n",
        canvas.to_ppm()
    );
}

#[test]
fn lines_wrap_by_count_not_by_row() {
    let mut canvas = Canvas::create(3, 3, rgb(0, 0, 0));
    canvas.write(2, 2, rgb(9, 9, 9)).unwrap();
    assert_eq!(
        "P3\n3 3\n255\n0 0 0 0 0 0 0 0 0 0 0 0 0 0 0\n0 0 0 0 0 0 0 0 0 9 9 9\n",
        canvas.to_ppm()
    );
}

#[test]
fn serialize_single_pixel() {
    assert_eq!("P3\n1 1\n255\n10 20 30\n", serialize(1, 1, &vec![rgb(10, 20, 30)]));
}

#[test]
fn text_reads_back_to_the_quantized_pixels() {
    let mut canvas = Canvas::create(4, 2, rgb(0, 0, 0));
    canvas.write(0, 0, rgb(255, 1, 10)).unwrap();
    canvas.write(3, 0, rgb(100, 200, 7)).unwrap();
    canvas.write(1, 1, Rgb::quantize(383, -128, 128)).unwrap();
    let text = canvas.to_ppm();

    let mut fields = text.split_whitespace();
    assert_eq!(Some("P3"), fields.next());
    assert_eq!(Some("4"), fields.next());
    assert_eq!(Some("2"), fields.next());
    assert_eq!(Some("255"), fields.next());
    let values: Vec<u8> = fields.map(|f| f.parse().unwrap()).collect();
    let read: Vec<Rgb> = values.chunks(3).map(|c| rgb(c[0], c[1], c[2])).collect();
    assert_eq!(canvas.pixels(), &read);
    assert_eq!(rgb(255, 0, 128), read[5]);
}

#[test]
fn parse_reads_back_a_serialized_canvas() {
    let mut canvas = Canvas::create(5, 3, rgb(0, 0, 0));
    canvas.write(0, 0, rgb(255, 0, 0)).unwrap();
    canvas.write(2, 1, rgb(0, 128, 0)).unwrap();
    canvas.write(4, 2, rgb(0, 0, 255)).unwrap();
    let back = parse(&canvas.to_ppm()).unwrap();
    assert_eq!(5, back.width());
    assert_eq!(3, back.height());
    assert_eq!(canvas.pixels(), back.pixels());
}

#[test]
fn parse_reads_the_reference_text() {
    let text = "P3\n5 3\n255\n255 0 0 0 0 0 0 0 0 0 0 0 0 0 0\n0 0 0 0 0 0 0 128 0 0 0 0 0 0 0\n0 0 0 0 0 0 0 0 0 0 0 0 0 0 255\n";
    let canvas = parse(text).unwrap();
    assert_eq!(Ok(rgb(255, 0, 0)), canvas.pixel_at(0, 0));
    assert_eq!(Ok(rgb(0, 128, 0)), canvas.pixel_at(2, 1));
    assert_eq!(Ok(rgb(0, 0, 255)), canvas.pixel_at(4, 2));
    assert_eq!(Ok(rgb(0, 0, 0)), canvas.pixel_at(1, 1));
    assert_eq!(text, canvas.to_ppm());
}

#[test]
fn parse_reads_an_empty_canvas() {
    let canvas = parse("P3\n0 4\n255\n").unwrap();
    assert_eq!(0, canvas.width());
    assert_eq!(4, canvas.height());
    assert!(canvas.pixels().is_empty());
}

#[test]
fn parse_rejects_texts_no_canvas_serializes_to() {
    // wrong magic number
    assert!(parse("P6\n1 1\n255\n1 2 3\n").is_none());
    // leading zero
    assert!(parse("P3\n1 1\n255\n01 2 3\n").is_none());
    // channel above 255
    assert!(parse("P3\n1 1\n255\n256 2 3\n").is_none());
    // space instead of the final newline
    assert!(parse("P3\n1 1\n255\n1 2 3 ").is_none());
    // too few triples
    assert!(parse("P3\n2 1\n255\n1 2 3\n").is_none());
    // trailing text
    assert!(parse("P3\n1 1\n255\n1 2 3\n\n").is_none());
    // other maximum
    assert!(parse("P3\n1 1\n15\n1 2 3\n").is_none());
    // sixth triple on the same line
    assert!(parse("P3\n6 1\n255\n0 0 0 0 0 0 0 0 0 0 0 0 0 0 0 0 0 0\n").is_none());
    assert!(parse("P3\n6 1\n255\n0 0 0 0 0 0 0 0 0 0 0 0 0 0 0\n0 0 0\n").is_some());
}
