use raycore::color::Color;
use raycore::ppm_writer::PPMWriter;
use raycore::writer::WriteError;
use raycore::writer::Writer;

#[test]
fn test_ppm_writer_write() {
    let writer = PPMWriter::new(String::from("test.ppm"), 1, 2);

    let res = writer.write(&[Color::new(255, 255, 0), Color::new(0, 0, 255)]);

    assert!(res.is_ok());

    let contents = String::from_utf8(res.unwrap()).unwrap();
    assert_eq!(contents, "P3\n1 2\n255\n255 255 0\n0 0 255\n");
}

#[test]
fn test_invalid_number_of_data_items() {
    let writer = PPMWriter::new(String::from("test.ppm"), 1, 2);

    match writer.write(&[
        Color::new(255, 255, 0),
        Color::new(0, 0, 255),
        Color::new(0, 0, 0),
    ]) {
        Err(e) => assert_eq!(e, WriteError::InvalidData),
        Ok(_) => panic!("Expected error!"),
    }
}

#[test]
fn test_too_few_data_items() {
    let writer = PPMWriter::new(String::from("test.ppm"), 2, 2);
    assert_eq!(
        writer.write(&[Color::new(1, 2, 3)]),
        Err(WriteError::InvalidData)
    );
}

#[test]
fn test_empty_buffer_is_invalid() {
    let writer = PPMWriter::new(String::from("test.ppm"), 1, 1);
    assert_eq!(writer.write(&[]), Err(WriteError::InvalidData));
}

#[test]
fn test_header_and_line_count() {
    let writer = PPMWriter::new(String::from("img.ppm"), 3, 2);
    let pixels = vec![
        Color::new(0, 0, 0),
        Color::new(1, 2, 3),
        Color::new(10, 20, 30),
        Color::new(100, 200, 300),
        Color::new(255, 255, 255),
        Color::new(9, 99, 999),
    ];
    let text = String::from_utf8(writer.write(&pixels).unwrap()).unwrap();
    let newlines: usize = text.bytes().filter(|b| *b == b'\n').count();
    assert_eq!(newlines, 3 + 3 * 2);
    let lines: Vec<&str> = text.lines().collect();
    assert_eq!(lines.len(), 3 + 3 * 2);
    assert_eq!(lines[0], "P3");
    assert_eq!(lines[1], "3 2");
    assert_eq!(lines[2], "255");
    assert_eq!(lines[3], "0 0 0");
    assert_eq!(lines[8], "9 99 999");
    assert!(text.ends_with('\n'));
}

#[test]
fn test_multi_digit_and_negative_channels() {
    let writer = PPMWriter::new(String::from("img.ppm"), 1, 1);
    let text = String::from_utf8(writer.write(&[Color::new(-12, 0, 1000)]).unwrap()).unwrap();
    assert_eq!(text, "P3\n1 1\n255\n-12 0 1000\n");
}

#[test]
fn test_extreme_channels() {
    let writer = PPMWriter::new(String::from("img.ppm"), 1, 1);
    let text = String::from_utf8(
        writer
            .write(&[Color::new(2147483647, -2147483648, 0)])
            .unwrap(),
    )
    .unwrap();
    assert_eq!(text, "P3\n1 1\n255\n2147483647 -2147483648 0\n");
}

#[test]
fn test_round_trip() {
    let pixels = vec![
        Color::new(0, 12, 255),
        Color::new(-7, 1000, 42),
        Color::new(2147483647, -2147483648, 0),
        Color::new(5, 5, 5),
    ];
    let writer = PPMWriter::new(String::from("out.ppm"), 2, 2);
    let text = String::from_utf8(writer.write(&pixels).unwrap()).unwrap();

    let mut lines = text.lines();
    assert_eq!(lines.next(), Some("P3"));
    let dims: Vec<u32> = lines
        .next()
        .unwrap()
        .split(' ')
        .map(|t| t.parse::<u32>().unwrap())
        .collect();
    assert_eq!(dims, vec![2, 2]);
    assert_eq!(lines.next(), Some("255"));
    let mut recovered: Vec<Color> = Vec::new();
    for line in lines {
        let channels: Vec<i32> = line.split(' ').map(|t| t.parse::<i32>().unwrap()).collect();
        assert_eq!(channels.len(), 3);
        recovered.push(Color::new(channels[0], channels[1], channels[2]));
    }
    assert_eq!(recovered, pixels);
}

#[test]
fn test_writer_accessors() {
    let writer = PPMWriter::new(String::from("scene.ppm"), 640, 480);
    assert_eq!(writer.width(), 640);
    assert_eq!(writer.height(), 480);
    assert_eq!(writer.image_name(), "scene.ppm");
}

#[test]
fn test_color_new() {
    let c = Color::new(1, 2, 3);
    assert_eq!(c.r, 1);
    assert_eq!(c.g, 2);
    assert_eq!(c.b, 3);
}
