use cch24::{
    add_octets, ornament, parse_checksum, parse_color, parse_state, present, split_ip, sub_octets,
    Color,
};

#[test]
fn colors_cycle() {
    assert_eq!(parse_color("red"), Some(Color::Red));
    assert_eq!(parse_color("blue").unwrap().next(), Color::Purple);
    assert_eq!(parse_color("purple").unwrap().next().to_string(), "red");
    assert_eq!(parse_color("green"), None);
}

#[test]
fn states_invert() {
    let on = parse_state("on".to_string()).unwrap();
    assert!(on.on);
    assert_eq!(on.format(), " on");
    assert_eq!(on.invert().to_string(), "off");
    assert_eq!(on.invert().format(), "");
    assert!(parse_state("dim".to_string()).is_none());
}

#[test]
fn present_links_to_the_next_colour() {
    let page = present("red".to_string()).unwrap();
    assert!(page.contains("<div class=\"present red\" hx-get=\"/23/present/blue\" hx-swap=\"outerHTML\">"));
    assert_eq!(page.matches("<div class=\"ribbon\"></div>").count(), 4);
    assert!(present("green".to_string()).is_err());
}

#[test]
fn ornament_toggles_and_escapes_the_id() {
    let page = ornament("on".to_string(), "7".to_string()).unwrap();
    assert_eq!(
        page,
        "<div class=\"ornament on\" id=\"ornament7\" hx-trigger=\"load delay:2s once\" hx-get=\"/23/ornament/off/7\" hx-swap=\"outerHTML\"></div>"
    );
    let page = ornament("off".to_string(), "<b>".to_string()).unwrap();
    assert!(page.starts_with("<div class=\"ornament\" id=\"ornament&lt;b&gt;\""));
    assert!(page.contains("/23/ornament/on/&lt;b&gt;"));
    assert!(ornament("blink".to_string(), "1".to_string()).is_err());
}

#[test]
fn checksum_draws_a_box() {
    assert_eq!(
        parse_checksum("\"ff0000140a00\"").unwrap(),
        "<div style=\"background-color:#ff0000;top:20px;left:10px;\"></div>"
    );
    assert_eq!(
        parse_checksum("337aefff+f").unwrap(),
        "<div style=\"background-color:#337aef;top:255px;left:15px;\"></div>"
    );
    assert!(parse_checksum("ff00").is_err());
    assert!(parse_checksum("gg0000140a").is_err());
    assert!(parse_checksum("ff0000zz0a").is_err());
    assert!(parse_checksum("\"\"\"").is_err());
}

#[test]
fn split_ip_reads_octets() {
    assert_eq!(split_ip(&"10.0.0.1".to_string()), Ok(vec![10, 0, 0, 1]));
    assert_eq!(split_ip(&"+1.02.255".to_string()), Ok(vec![1, 2, 255]));
    assert_eq!(split_ip(&"256.1.1.1".to_string()), Err("Failed to parse IP part :256".to_string()));
    assert_eq!(split_ip(&"1..2".to_string()), Err("Failed to parse IP part :".to_string()));
    assert_eq!(split_ip(&"1.x.y".to_string()), Err("Failed to parse IP part :x".to_string()));
}

#[test]
fn octet_arithmetic_wraps() {
    assert_eq!(add_octets(&vec![10, 0, 0, 250], &vec![1, 2, 3, 10]), vec![11, 2, 3, 4]);
    assert_eq!(sub_octets(&vec![10, 0, 0, 250], &vec![11, 2, 3, 4]), vec![1, 2, 3, 10]);
    assert_eq!(add_octets(&vec![1, 2], &vec![1]), vec![2]);
}
