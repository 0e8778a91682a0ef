use similario::visual::cropdetect::{
    detect_letterbox, detect_letterbox_multi, is_letterbox_strip, scan_from_edge, Crop, Side,
};
use similario::visual::extract::detect_crop;
use similario::visual::frame::GrayFrame;

fn make_gray(w: u32, h: u32, value: u8) -> GrayFrame {
    GrayFrame::from_pixel(w, h, value)
}

/// A bright frame with black bars at its edges.
fn barred(w: u32, h: u32, crop: Crop) -> GrayFrame {
    let mut frame = make_gray(w, h, 200);
    for y in 0..h {
        for x in 0..w {
            if x < crop.left || x >= w - crop.right || y < crop.top || y >= h - crop.bottom {
                frame.put_pixel(x, y, 0);
            }
        }
    }
    frame
}

#[test]
fn no_letterbox_on_uniform() {
    let frame = make_gray(160, 90, 128);
    let crop = detect_letterbox(&frame);
    // Uniform bright frame - no dark bars, no crop expected.
    assert!(crop.is_empty());
}

#[test]
fn detects_black_bars_top_bottom() {
    let mut frame = make_gray(160, 90, 0);
    // Black bars: top and bottom 10px.
    for x in 0..160 {
        for y in 0..10 {
            frame.put_pixel(x, y, 0);
            frame.put_pixel(x, 89 - y, 0);
        }
    }
    // Bright content in the middle.
    for x in 0..160 {
        for y in 10..80 {
            frame.put_pixel(x, y, 200);
        }
    }
    let crop = detect_letterbox(&frame);
    assert!(crop.top >= 9, "expected top crop, got {}", crop.top);
    assert!(crop.bottom >= 9, "expected bottom crop, got {}", crop.bottom);
}

#[test]
fn bars_are_measured_exactly() {
    let bars = Crop { left: 0, right: 0, top: 10, bottom: 12 };
    assert_eq!(detect_letterbox(&barred(160, 90, bars)), bars);
    let sides = Crop { left: 7, right: 20, top: 0, bottom: 0 };
    assert_eq!(detect_letterbox(&barred(160, 90, sides)), sides);
}

#[test]
fn a_black_frame_is_not_cropped() {
    assert_eq!(detect_letterbox(&make_gray(160, 90, 0)), Crop::default());
    // With an odd size a line would be left, and the frame is all bar but for it.
    assert_eq!(
        detect_letterbox(&make_gray(9, 7, 0)),
        Crop { left: 4, right: 4, top: 3, bottom: 3 }
    );
}

#[test]
fn the_scan_stops_in_the_middle() {
    assert_eq!(scan_from_edge(&make_gray(160, 90, 0), Side::Top), 45);
    assert_eq!(scan_from_edge(&make_gray(160, 90, 0), Side::Left), 80);
    assert_eq!(scan_from_edge(&make_gray(160, 90, 33), Side::Right), 0);
}

#[test]
fn a_strip_is_dark_and_uniform() {
    assert!(is_letterbox_strip(&[32; 10]));
    assert!(!is_letterbox_strip(&[33; 10]));
    assert!(!is_letterbox_strip(&[]));
    // Nine of ten are enough, eight are not.
    assert!(is_letterbox_strip(&[0, 0, 0, 0, 0, 0, 0, 0, 16, 255]));
    assert!(!is_letterbox_strip(&[0, 0, 0, 0, 0, 0, 0, 0, 17, 255]));
    // Of two values that are equally frequent the larger one counts.
    assert!(is_letterbox_strip(&[10, 10, 20, 20]));
    assert!(!is_letterbox_strip(&[10, 10, 40, 40]));
}

#[test]
fn unions_are_conservative() {
    let a = Crop { left: 1, right: 8, top: 3, bottom: 0 };
    let b = Crop { left: 4, right: 2, top: 3, bottom: 9 };
    let both = Crop { left: 1, right: 2, top: 3, bottom: 0 };
    assert_eq!(a.union(&b), both);
    assert_eq!(b.union(&a), both);
    assert_eq!(a.union(&a), a);
    assert!(a.union(&Crop::default()).is_empty());
    assert!(!both.is_empty());
}

#[test]
fn several_frames_have_bars_in_common() {
    let wide = barred(160, 120, Crop { left: 0, right: 0, top: 20, bottom: 20 });
    let narrow = barred(160, 120, Crop { left: 0, right: 0, top: 12, bottom: 30 });
    let common = Crop { left: 0, right: 0, top: 12, bottom: 20 };
    assert_eq!(detect_letterbox_multi(&[wide.clone(), narrow.clone()]), common);
    assert_eq!(detect_letterbox_multi(&[]), Crop::default());
    // Of seventeen frames every second one is looked at, up to the fifteenth.
    let mut frames = vec![wide.clone(); 17];
    frames[1] = narrow.clone();
    frames[16] = narrow.clone();
    assert_eq!(detect_letterbox_multi(&frames), Crop { left: 0, right: 0, top: 20, bottom: 20 });
    frames[14] = narrow;
    assert_eq!(detect_letterbox_multi(&frames), common);
}

#[test]
fn a_prescan_finds_bars_or_none() {
    let bars = Crop { left: 0, right: 0, top: 15, bottom: 15 };
    let frame = barred(160, 120, bars);
    let mut raw = frame.pixels.clone();
    raw.extend_from_slice(&frame.pixels);
    assert_eq!(detect_crop(&raw), Some(bars));
    // A frame that is cut off is not looked at.
    raw.extend_from_slice(&[200; 1000]);
    assert_eq!(detect_crop(&raw), Some(bars));
    assert_eq!(detect_crop(&raw[..19_199]), None);
    assert_eq!(detect_crop(&[]), None);
    assert_eq!(detect_crop(&vec![200; 19_200]), None);
}
