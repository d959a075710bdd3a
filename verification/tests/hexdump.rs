use discipline_net::hexdump::hex_dump;

#[test]
fn dump_of_nothing_is_a_line_feed() {
    assert_eq!(hex_dump(&[]), "\n");
}

#[test]
fn dump_of_one_byte() {
    assert_eq!(hex_dump(&[0xab]), "00000000 ab\n");
}

#[test]
fn dump_breaks_lines_every_sixteen_bytes() {
    let u: Vec<u8> = (0..18).collect();
    assert_eq!(
        hex_dump(&u),
        "00000000 00 01 02 03 04 05 06 07 08 09 0a 0b 0c 0d 0e 0f\n00000010 10 11\n"
    );
}

#[test]
fn dump_of_a_full_line_does_not_start_another() {
    let u = [0xff_u8; 16];
    assert_eq!(
        hex_dump(&u),
        "00000000 ff ff ff ff ff ff ff ff ff ff ff ff ff ff ff ff\n"
    );
}

#[test]
fn dump_matches_the_format_strings() {
    let u: Vec<u8> = (0..300_usize).map(|i| (i * 37 % 256) as u8).collect();
    let mut want = String::new();
    for i in 0..u.len() {
        if i & 15 == 0 {
            if i != 0 {
                want.push_str("\n");
            }
            want.push_str(&format!("{:08x}", i));
        }
        want.push_str(&format!(" {:02x}", u[i]));
    }
    want.push_str("\n");
    assert_eq!(hex_dump(&u), want);
}
