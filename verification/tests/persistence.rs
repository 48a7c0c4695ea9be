use sediment::circle::Circle;
use sediment::persistence::{parse, serialize, ParseError};

fn circle(x: u32, y: u32, radius: u32, r: u8, g: u8, b: u8) -> Circle {
    Circle { x, y, radius, r, g, b }
}

#[test]
fn serializes_header_and_one_line_per_circle() {
    let circles = vec![circle(1, 2, 3, 10, 20, 30), circle(4, 5, 6, 40, 50, 60)];
    let text = serialize(&circles);
    assert_eq!(text, b"x,y,radius,r,g,b\n1,2,3,10,20,30\n4,5,6,40,50,60\n".to_vec());
    assert_eq!(parse(&text), Ok(circles));
}

#[test]
fn serializes_an_empty_list_as_the_header() {
    assert_eq!(serialize(&[]), b"x,y,radius,r,g,b\n".to_vec());
    assert_eq!(parse(b"x,y,radius,r,g,b\n"), Ok(vec![]));
    assert_eq!(parse(b"x,y,radius,r,g,b"), Ok(vec![]));
}

#[test]
fn round_trip_keeps_values_and_order() {
    let circles = vec![
        circle(u32::MAX, 0, 4_294_967_295, 255, 0, 255),
        circle(0, 0, 0, 0, 0, 0),
        circle(10, 100, 1000, 9, 99, 199),
        circle(0, 0, 0, 0, 0, 0),
        circle(7, 70, 700, 1, 10, 100),
    ];
    assert_eq!(parse(&serialize(&circles)), Ok(circles));
}

#[test]
fn parses_without_a_final_line_break() {
    assert_eq!(
        parse(b"x,y,radius,r,g,b\n1,2,3,4,5,6\n7,8,9,10,11,12"),
        Ok(vec![circle(1, 2, 3, 4, 5, 6), circle(7, 8, 9, 10, 11, 12)])
    );
}

#[test]
fn parses_leading_zeros() {
    assert_eq!(parse(b"x,y,radius,r,g,b\n001,0,00,000255,1,2\n"), Ok(vec![circle(1, 0, 0, 255, 1, 2)]));
}

#[test]
fn rejects_a_missing_or_wrong_header() {
    assert_eq!(parse(b""), Err(ParseError::Header));
    assert_eq!(parse(b"\n"), Err(ParseError::Header));
    assert_eq!(parse(b"1,2,3,4,5,6\n"), Err(ParseError::Header));
    assert_eq!(parse(b"x,y,radius,r,g\n1,2,3,4,5\n"), Err(ParseError::Header));
    assert_eq!(parse(b"X,Y,RADIUS,R,G,B\n"), Err(ParseError::Header));
    assert_eq!(parse(b" x,y,radius,r,g,b\n"), Err(ParseError::Header));
    assert_eq!(parse(b"\nx,y,radius,r,g,b\n"), Err(ParseError::Header));
}

#[test]
fn rejects_lines_with_other_than_six_fields() {
    assert_eq!(parse(b"x,y,radius,r,g,b\n1,2,3,4,5\n"), Err(ParseError::Columns));
    assert_eq!(parse(b"x,y,radius,r,g,b\n1,2,3,4,5,6,7\n"), Err(ParseError::Columns));
    assert_eq!(parse(b"x,y,radius,r,g,b\n1,2,3,4,5,6\n\n7,8,9,1,2,3\n"), Err(ParseError::Columns));
    assert_eq!(parse(b"x,y,radius,r,g,b\n\n"), Err(ParseError::Columns));
}

#[test]
fn rejects_fields_that_are_no_numbers() {
    assert_eq!(parse(b"x,y,radius,r,g,b\n1,2,x,4,5,6\n"), Err(ParseError::Number));
    assert_eq!(parse(b"x,y,radius,r,g,b\n1,2,,4,5,6\n"), Err(ParseError::Number));
    assert_eq!(parse(b"x,y,radius,r,g,b\n-1,2,3,4,5,6\n"), Err(ParseError::Number));
    assert_eq!(parse(b"x,y,radius,r,g,b\n1,2,3,4,5,6 \n"), Err(ParseError::Number));
    assert_eq!(parse(b"x,y,radius,r,g,b\n1,2,3,4,5,6\r\n"), Err(ParseError::Number));
    assert_eq!(parse(b"x,y,radius,r,g,b\n1.0,2,3,4,5,6\n"), Err(ParseError::Number));
    assert_eq!(parse("x,y,radius,r,g,b\n1,2,3,4,5,\u{663}\n".as_bytes()), Err(ParseError::Number));
}

#[test]
fn rejects_numbers_too_large_for_their_column() {
    assert_eq!(parse(b"x,y,radius,r,g,b\n4294967295,2,3,4,5,6\n"), Ok(vec![circle(u32::MAX, 2, 3, 4, 5, 6)]));
    assert_eq!(parse(b"x,y,radius,r,g,b\n4294967296,2,3,4,5,6\n"), Err(ParseError::Number));
    assert_eq!(parse(b"x,y,radius,r,g,b\n1,2,3,256,5,6\n"), Err(ParseError::Number));
    assert_eq!(parse(b"x,y,radius,r,g,b\n1,2,3,4,5,99999999999999999999999999\n"), Err(ParseError::Number));
}

#[test]
fn reports_the_first_line_that_is_wrong() {
    assert_eq!(parse(b"x,y,radius,r,g,b\n1,2,3,4,5,6\n1,2\nx,2,3,4,5,6\n"), Err(ParseError::Columns));
    assert_eq!(parse(b"x,y,radius,r,g,b\n1,2,3,4,5,6\nx,2,3,4,5,6\n1,2\n"), Err(ParseError::Number));
}
