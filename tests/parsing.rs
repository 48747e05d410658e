use hyperbolic::color::{Color, ColorError};
use hyperbolic::fragment::{parse_definition_text, Branch, Fragment};
use hyperbolic::projection::Projection;

#[test]
fn color_reads_six_hex_digits() {
    assert_eq!(Color::from_hex("ff8000"), Ok(Color { r: 255, g: 128, b: 0 }));
    assert_eq!(Color::from_hex("30BFbe"), Ok(Color { r: 48, g: 191, b: 190 }));
}

#[test]
fn color_accepts_leading_plus_and_short_literals() {
    assert_eq!(Color::from_hex("+0d98bb"), Ok(Color { r: 13, g: 152, b: 187 }));
    assert_eq!(Color::from_hex("ff"), Ok(Color { r: 0, g: 0, b: 255 }));
}

#[test]
fn color_drops_bits_above_the_low_24() {
    assert_eq!(Color::from_hex("1ff0000"), Ok(Color { r: 255, g: 0, b: 0 }));
}

#[test]
fn color_errors() {
    assert_eq!(Color::from_hex(""), Err(ColorError::Empty));
    assert_eq!(Color::from_hex("+"), Err(ColorError::InvalidDigit));
    assert_eq!(Color::from_hex("12x456"), Err(ColorError::InvalidDigit));
    assert_eq!(Color::from_hex(" ff0000"), Err(ColorError::InvalidDigit));
    assert_eq!(Color::from_hex("100000000"), Err(ColorError::Overflow));
    assert_eq!(Color::from_hex("fffffffff"), Err(ColorError::Overflow));
}

#[test]
fn color_from_u32_splits_bytes() {
    assert_eq!(Color::from_u32(0x11_64_b3), Color { r: 17, g: 100, b: 179 });
}

#[test]
fn projection_names() {
    assert_eq!(Projection::from_name("poincare"), Some(Projection::Poincare));
    assert_eq!(Projection::from_name("klein"), Some(Projection::Klein));
    assert_eq!(Projection::from_name("hyperboloid"), Some(Projection::Hyperboloid));
    assert_eq!(Projection::from_name("Klein"), None);
    assert_eq!(Projection::from_name("poincar"), None);
    assert_eq!(Projection::from_name(""), None);
}

fn b(neighbor: Option<u16>, rotation: u16) -> Branch {
    Branch { neighbor, rotation }
}

#[test]
fn fragment_plain_entries() {
    let f = Fragment::parse("2,0,1,3").unwrap();
    assert_eq!(f.color, None);
    assert_eq!(f.branch, vec![b(Some(1), 0), b(None, 0), b(Some(0), 0), b(Some(2), 0)]);
}

#[test]
fn fragment_rotations_and_spaces() {
    let f = Fragment::parse(" 2+1 , 3 + 2,,4+x").unwrap();
    assert_eq!(f.branch, vec![b(Some(1), 1), b(Some(2), 2), b(None, 0), b(Some(3), 0)]);
}

#[test]
fn fragment_unreadable_ids_mean_no_neighbour() {
    let f = Fragment::parse("a,+,-1,65536").unwrap();
    assert_eq!(f.branch, vec![b(None, 0), b(None, 0), b(None, 0), b(None, 0)]);
    let g = Fragment::parse("65535,+7").unwrap();
    assert_eq!(g.branch, vec![b(Some(65534), 0), b(None, 7)]);
}

#[test]
fn fragment_with_colour() {
    let f = Fragment::parse("b0c4de;1,2,0,1+3").unwrap();
    assert_eq!(f.color, Some(Color { r: 176, g: 196, b: 222 }));
    assert_eq!(f.branch, vec![b(Some(0), 0), b(Some(1), 0), b(None, 0), b(Some(0), 3)]);
}

#[test]
fn fragment_with_bad_colour_is_refused() {
    assert!(Fragment::parse("nothex;1,1,1,1").is_none());
    assert!(Fragment::parse(";1,1,1,1").is_none());
}

#[test]
fn fragment_empty_line_has_one_empty_entry() {
    let f = Fragment::parse("").unwrap();
    assert_eq!(f.branch, vec![b(None, 0)]);
}

#[test]
fn definition_skips_bad_lines_only() {
    let fs = parse_definition_text("1,1,1,1\nzz;2,2\r\nff0000;0,2\n");
    assert_eq!(fs.len(), 2);
    assert_eq!(fs[0].branch, vec![b(Some(0), 0); 4]);
    assert_eq!(fs[1].color, Some(Color { r: 255, g: 0, b: 0 }));
    assert_eq!(fs[1].branch, vec![b(None, 0), b(Some(1), 0)]);
}

#[test]
fn definition_line_endings() {
    assert_eq!(parse_definition_text("").len(), 0);
    assert_eq!(parse_definition_text("\n").len(), 1);
    assert_eq!(parse_definition_text("1\n2").len(), 2);
    assert_eq!(parse_definition_text("1\r\n2\r\n").len(), 2);
    assert_eq!(parse_definition_text("1\r\n2\r\n")[1].branch, vec![b(Some(1), 0)]);
}

#[test]
fn color_from_str_matches_from_hex() {
    assert_eq!("8dd9cd".parse::<Color>(), Ok(Color { r: 141, g: 217, b: 205 }));
    assert_eq!("8dd9cz".parse::<Color>(), Err(ColorError::InvalidDigit));
}
