use colored::Colorize;
use flash_img_seeker::flash_img_seeker::FlashImage;
use flash_img_seeker::numfmt::{dec_string, hex_annot};
use flash_img_seeker::puzzle::{color_name, PuzzleDisplay, PuzzlePiece};

fn flash_of_size(size: usize) -> FlashImage {
    let data = vec![0u8; size];
    FlashImage::new(&data, 512).unwrap()
}

fn token_for(index: usize) -> String {
    let colors = ["red", "green", "yellow", "blue", "magenta", "cyan", "white"];
    index
        .to_string()
        .color("black")
        .on_color(colors[index % colors.len()])
        .to_string()
}

#[test]
fn palette_cycles_every_seven_pieces() {
    assert_eq!(color_name(0), "red");
    assert_eq!(color_name(1), "green");
    assert_eq!(color_name(2), "yellow");
    assert_eq!(color_name(3), "blue");
    assert_eq!(color_name(4), "magenta");
    assert_eq!(color_name(5), "cyan");
    assert_eq!(color_name(6), "white");
    assert_eq!(color_name(7), "red");
    assert_eq!(color_name(13), "white");
}

#[test]
fn number_rendering() {
    assert_eq!(dec_string(0), "0");
    assert_eq!(dec_string(7), "7");
    assert_eq!(dec_string(1234), "1234");
    assert_eq!(hex_annot(0), "0x00000000");
    assert_eq!(hex_annot(0x400), "0x00000400");
    assert_eq!(hex_annot(0x123456789), "0x123456789");
}

#[test]
fn single_piece_exact_output() {
    let flash = flash_of_size(1024);
    let mut display = PuzzleDisplay::new(&flash, Some(1), Some(1));
    assert!(display.is_empty());
    display
        .add_element(PuzzlePiece::new("boot".to_string(), 1024, 0))
        .unwrap();
    assert!(!display.is_empty());
    let t = token_for(0);
    let expected = format!(
        "┌─┐ <-- 0x00000000\n│{t}│\n│{t}│ <-- 0x00000400\n│{t}│\n└─┘\n{t}: 'boot'\n",
        t = t
    );
    assert_eq!(display.display(), expected);
}

#[test]
fn two_piece_output_is_reproducible() {
    // the two-piece example, horizontal scale 2, vertical scale 1
    let build = || {
        let flash = flash_of_size(1024);
        let mut d = PuzzleDisplay::new(&flash, Some(1), Some(2));
        d.add_element(PuzzlePiece::new("a".to_string(), 100, 0)).unwrap();
        d.add_element(PuzzlePiece::new("b".to_string(), 50, 50)).unwrap();
        d
    };
    let d1 = build();
    let d2 = build();
    let out1 = d1.display();
    let out2 = d1.display();
    let out3 = d2.display();
    assert_eq!(out1, out2);
    assert_eq!(out1, out3);
    // the same state rendered against any viewport with fixed scales
    assert_eq!(out1, d2.display_with_viewport(Some((80, 24))));
    // the legend lists both pieces in insertion order
    assert!(out1.ends_with(&format!("{}: 'a'\n{}: 'b'\n", token_for(0), token_for(1))));
    // both boundary annotations of the split appear
    assert!(out1.contains(" <-- 0x00000032"));
    assert!(out1.contains(" <-- 0x00000064"));
}

#[test]
fn dynamic_scaling_uses_supplied_viewport() {
    let flash = flash_of_size(1024);
    let mut d = PuzzleDisplay::new(&flash, None, None);
    d.add_element(PuzzlePiece::new("a".to_string(), 512, 0)).unwrap();
    // a generous viewport magnifies, a tiny one falls back to 1
    let wide = d.display_with_viewport(Some((200, 100)));
    let tiny = d.display_with_viewport(Some((10, 5)));
    let none = d.display_with_viewport(None);
    assert_eq!(tiny, none);
    assert!(wide.len() > tiny.len());
    // horizontal fit: (200 / 2 - 16) / 1 - 1 = 83 copies of each track token
    let first_line = wide.lines().next().unwrap();
    assert_eq!(first_line, format!("┌{}┐ <-- 0x00000000", "─".repeat(83)));
    // vertical fit: (100 / 2 - 1 - 1) / 3 - 1 = 15 copies of each cell line;
    // 4 boundary lines, 3 cell lines repeated 15 times, 1 legend line
    assert_eq!(wide.lines().count(), 4 + 3 * 15 + 1);
}
