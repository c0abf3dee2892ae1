use fajr_kernel::bytes::read_u32;
use fajr_kernel::console::Console;
use fajr_kernel::psf2::Psf2Font;
use fajr_kernel::screen::{Color, Screen};

const RED: Color = Color { b: 0, g: 0, r: 200, padding: 0 };

fn font_bytes(glyphs: usize) -> Vec<u8> {
    let mut data = vec![0x72, 0xb5, 0x4a, 0x86];
    for value in [0u32, 32, 1, glyphs as u32, 2, 2, 8] {
        data.extend(value.to_le_bytes());
    }
    for glyph in 0..glyphs {
        data.push(glyph as u8);
        data.push(0xff - glyph as u8);
    }
    data
}

fn console(screen: &Screen) -> Console {
    Console::new(Psf2Font::parse(&font_bytes(128)), screen.width, screen.height)
}

#[test]
fn font_header_is_read_field_by_field() {
    let data = font_bytes(3);
    assert!(Psf2Font::has_magic(&data));
    let font = Psf2Font::parse(&data);
    assert_eq!(font.header.magic, [0x72, 0xb5, 0x4a, 0x86]);
    assert_eq!(font.header.version, 0);
    assert_eq!(font.header.header_size, 32);
    assert_eq!(font.header.flags, 1);
    assert_eq!(font.header.glyphs_count, 3);
    assert_eq!(font.header.glyph_size, 2);
    assert_eq!(font.header.glyph_height, 2);
    assert_eq!(font.header.glyph_width, 8);
    assert_eq!(font.data, vec![0, 0xff, 1, 0xfe, 2, 0xfd]);
    assert_eq!(read_u32(&data, 8), 32);
}

#[test]
fn font_needs_its_magic_and_a_whole_header() {
    let mut data = font_bytes(1);
    data[3] = 0;
    assert!(!Psf2Font::has_magic(&data));
    assert!(!Psf2Font::has_magic(&font_bytes(0)[..31].to_vec()));
    assert!(Psf2Font::has_magic(&font_bytes(0)));
}

#[test]
fn colours_are_stored_blue_first() {
    assert_eq!(Color::new(1, 2, 3), Color { b: 3, g: 2, r: 1, padding: 0 });
    assert_eq!(Color::white(), Color { b: 255, g: 255, r: 255, padding: 0 });
    assert_eq!(Color::black(), Color { b: 0, g: 0, r: 0, padding: 0 });
}

#[test]
fn pixels_stand_row_by_row() {
    let mut screen = Screen::new(5, 3, Color::black());
    assert_eq!(screen.colors.len(), 15);
    *screen.get_color(2, 1) = RED;
    assert_eq!(screen.colors[7], RED);
    assert_eq!(screen.colors.iter().filter(|&&c| c == RED).count(), 1);
    screen.get_colors()[0] = RED;
    assert_eq!(*screen.get_color(0, 0), RED);
    screen.fill(Color::white());
    assert!(screen.colors.iter().all(|&c| c == Color::white()));
}

#[test]
fn console_keeps_a_margin() {
    let screen = Screen::new(80, 20, Color::black());
    let console = console(&screen);
    assert_eq!((console.width, console.height), (8, 9));
    assert_eq!((console.x, console.y, console.padding_x, console.padding_y), (2, 1, 2, 1));
    assert_eq!((console.background, console.foreground), (Color::black(), Color::white()));
}

#[test]
fn clear_fills_the_screen_and_resets_the_cursor() {
    let mut screen = Screen::new(80, 20, RED);
    let mut console = console(&screen);
    console.x = 5;
    console.y = 7;
    console.clear(&mut screen);
    assert!(screen.colors.iter().all(|&c| c == Color::black()));
    assert_eq!((console.x, console.y), (2, 1));
}

#[test]
fn glyph_is_drawn_with_its_highest_bit_at_the_left() {
    let mut screen = Screen::new(80, 20, RED);
    let console = console(&screen);
    let glyph = console.get_glyph_bytes(2 * 0x41).to_vec();
    assert_eq!(glyph, vec![0x41, 0xbe]);
    assert!(console.get_glyph_bit(&glyph, 0, 0));
    assert!(!console.get_glyph_bit(&glyph, 1, 0));
    assert!(console.get_glyph_bit(&glyph, 6, 0));
    console.write_glyph(&mut screen, &glyph);
    for y in 0..20 {
        for x in 0..80 {
            let expected = if (16..24).contains(&x) && (2..4).contains(&y) {
                let bit = glyph[y - 2] & (0x80 >> (x - 16)) != 0;
                if bit { Color::white() } else { Color::black() }
            } else {
                RED
            };
            assert_eq!(screen.colors[x + y * 80], expected);
        }
    }
}

#[test]
fn cursor_wraps_at_the_right_edge() {
    let mut screen = Screen::new(80, 20, RED);
    let mut console = console(&screen);
    for _ in 0..5 {
        console.write_char(&mut screen, 'A');
    }
    assert_eq!((console.x, console.y), (7, 1));
    console.write_char(&mut screen, 'A');
    assert_eq!((console.x, console.y), (2, 2));
    console.write_char(&mut screen, '\n');
    assert_eq!((console.x, console.y), (2, 3));
    assert_eq!(screen.colors[16 + 6 * 80], RED);
}

#[test]
fn console_scrolls_at_the_bottom() {
    let mut screen = Screen::new(80, 20, RED);
    let mut console = console(&screen);
    console.background = Color::new(0, 128, 255);
    console.y = 8;
    console.write_char(&mut screen, 'A');
    let before = screen.colors.clone();
    console.write_char(&mut screen, '\n');
    assert_eq!((console.x, console.y), (2, 8));
    let row_unit = 80 * 2;
    for place in 0..screen.colors.len() {
        let expected = if place >= 8 * row_unit {
            console.background
        } else {
            before[place + row_unit]
        };
        assert_eq!(screen.colors[place], expected);
    }
    assert_eq!(screen.colors[17 + 14 * 80], Color::white());
}

#[test]
fn characters_outside_ascii_are_drawn_as_the_first_glyph() {
    let mut screen = Screen::new(80, 20, RED);
    let mut plain = Screen::new(80, 20, RED);
    let mut console = console(&screen);
    let first = console.get_glyph_bytes(0).to_vec();
    console.write_glyph(&mut plain, &first);
    console.write_char(&mut screen, 'é');
    assert_eq!(screen.colors, plain.colors);
    assert_eq!((console.x, console.y), (3, 1));
}

#[test]
fn strings_are_written_character_by_character() {
    let mut screen = Screen::new(80, 20, RED);
    let mut one = Screen::new(80, 20, RED);
    let mut console = console(&screen);
    let mut other = self::console(&one);
    console.write_str(&mut screen, "ab\ncd");
    for ch in ['a', 'b', '\n', 'c', 'd'] {
        other.write_char(&mut one, ch);
    }
    assert_eq!(screen.colors, one.colors);
    assert_eq!((console.x, console.y), (4, 2));
    assert_eq!((other.x, other.y), (4, 2));
}
