use tspine::export::html::HtmlExporter;
use tspine::export::image::ImageExporter;
use tspine::export::svg::SvgExporter;
use tspine::export::terminal::TerminalExporter;
use tspine::grid::Grid;
use tspine::types::{ColorMode, Metadata};

fn small_grid() -> Grid {
    let mut g = Grid::new(3, ColorMode::EightColor);
    g.set(1, 1, 1);
    g.set(2, 0, 4);
    g
}

#[test]
fn svg_of_small_grid() {
    let s = SvgExporter::to_svg_string(&small_grid(), 2, 1);
    let expected = "<svg width=\"10\" height=\"10\" xmlns=\"http://www.w3.org/2000/svg\">\n".to_string()
        + "<rect width=\"10\" height=\"10\" fill=\"#ffffff\"/>\n"
        + "<rect x=\"6\" y=\"2\" width=\"2\" height=\"2\" fill=\"rgb(0,255,0)\"/>\n"
        + "<rect x=\"4\" y=\"4\" width=\"2\" height=\"2\" fill=\"rgb(0,0,0)\"/>\n"
        + "</svg>";
    assert_eq!(s, expected);
}

#[test]
fn svg_of_blank_grid() {
    let s = SvgExporter::to_svg_string(&Grid::new(2, ColorMode::Monochrome), 3, 0);
    assert_eq!(
        s,
        "<svg width=\"6\" height=\"6\" xmlns=\"http://www.w3.org/2000/svg\">\n<rect width=\"6\" height=\"6\" fill=\"#ffffff\"/>\n</svg>"
    );
}

#[test]
fn terminal_blocks_layout() {
    let mut g = Grid::new(2, ColorMode::EightColor);
    g.set(1, 0, 1);
    g.set(0, 1, 2);
    g.set(1, 1, 9);
    let blocks: Vec<String> = ["W", "K", "R", "B", "G", "C", "M", "Y"].iter().map(|s| s.to_string()).collect();
    assert_eq!(TerminalExporter::render_blocks(&g, &blocks), "WWWW\nWWKW\nWRKW\nWWWW\n");
}

#[test]
fn terminal_render_uses_colour_blocks() {
    let mut g = Grid::new(1, ColorMode::FourColor);
    g.set(0, 0, 3);
    let s = TerminalExporter::render(&g);
    let plain = "      \n      \n      \n".to_string();
    let w = "\x1b[47m  \x1b[0m";
    let b = "\x1b[44m  \x1b[0m";
    let coloured = format!("{w}{w}{w}\n{w}{b}{w}\n{w}{w}{w}\n");
    assert!(s == plain || s == coloured, "unexpected rendering {:?}", s);
}

#[test]
fn html_inspector_page() {
    let mut g = Grid::new(9, ColorMode::FourColor);
    g.apply_skeletons(false);
    let meta = Metadata {
        size: 9,
        header_bytes_count: 4,
        data_bytes_count: 2,
        ecc_start_byte: 3,
        ecc_bytes: 12,
        packed_bytes: 8,
        is_encrypted: true,
        ..Metadata::default()
    };
    let page = HtmlExporter::to_html_string(&g, Some(&meta), 10, 2);
    assert!(page.starts_with("<!DOCTYPE html>\n<html lang=\"en\">"));
    assert!(page.ends_with("</script>\n</body>\n</html>"));
    assert!(page.contains("<svg width=\"130\" height=\"130\" viewBox=\"0 0 130 130\">\n      <rect width=\"130\" height=\"130\" fill=\"#ffffff\"/>\n<rect class=\"cell\" x=\"20\" y=\"20\""));
    assert!(page.contains(
        "<rect class=\"cell\" x=\"60\" y=\"20\" width=\"10\" height=\"10\" fill=\"rgb(0,0,0)\" data-x=\"4\" data-y=\"0\" data-val=\"1\" data-bin=\"01\" data-role=\"T-Finder Roof\" data-rgb=\"rgb(0,0,0)\"/>"
    ));
    assert!(page.contains("data-x=\"4\" data-y=\"6\" data-val=\"2\" data-bin=\"10\" data-role=\"Color Calibration\""));
    assert!(page.contains("data-x=\"4\" data-y=\"3\" data-val=\"1\" data-bin=\"01\" data-role=\"T-Finder Spine\""));
    assert!(page.contains("data-x=\"0\" data-y=\"1\" data-val=\"0\" data-bin=\"00\" data-role=\"Header / Metadata\""));
    assert!(page.contains("data-x=\"0\" data-y=\"3\" data-val=\"0\" data-bin=\"00\" data-role=\"Data Payload\""));
    assert!(page.contains("data-x=\"0\" data-y=\"4\" data-val=\"0\" data-bin=\"00\" data-role=\"Error Correction Code\""));
    assert!(page.contains("data-x=\"0\" data-y=\"8\" data-val=\"1\" data-bin=\"01\" data-role=\"Left Notch (Black)\""));
    assert!(page.contains("data-x=\"8\" data-y=\"8\" data-val=\"0\" data-bin=\"00\" data-role=\"Right Notch (White)\""));
    assert!(page.contains("<td class=\"val\">9 &times; 9 modules</td>"));
    assert!(page.contains("<td class=\"val\">4 colors (2 bits/cell)</td>"));
    assert!(page.contains("ECC Parity:</td><td class=\"val\">12 bytes</td>"));
    assert!(page.contains("Data Payload:</td><td class=\"val\">8 bytes</td>"));
    assert!(page.contains("Encrypted:</td><td class=\"val\">Yes</td>"));
    assert!(page.contains("HMAC Signed:</td><td class=\"val\">No</td>"));
    assert_eq!(page.matches("<rect class=\"cell\"").count(), 81);
}

#[test]
fn html_nano_roles_without_metadata() {
    let mut g = Grid::new(5, ColorMode::Monochrome);
    g.apply_skeletons(true);
    let page = HtmlExporter::to_html_string(&g, None, 1, 0);
    assert!(page.contains("data-x=\"1\" data-y=\"1\" data-val=\"1\" data-bin=\"1\" data-role=\"TSC Nano T-Finder\""));
    assert!(page.contains("data-x=\"3\" data-y=\"0\" data-val=\"0\" data-bin=\"0\" data-role=\"Header / Metadata\""));
    assert!(page.contains("data-x=\"4\" data-y=\"3\" data-val=\"0\" data-bin=\"0\" data-role=\"Header / Metadata\""));
    assert!(page.contains("ECC Parity:</td><td class=\"val\">0 bytes</td>"));
    assert!(page.contains("Encrypted:</td><td class=\"val\">No</td>"));
}

#[test]
fn raster_image_pixels() {
    let img = ImageExporter::to_image_buffer(&small_grid(), 2, 1);
    assert_eq!(img.0.dimensions(), (10, 10));
    assert_eq!(img.0.get_pixel(0, 0).0, [255, 255, 255]);
    assert_eq!(img.0.get_pixel(4, 4).0, [0, 0, 0]);
    assert_eq!(img.0.get_pixel(5, 5).0, [0, 0, 0]);
    assert_eq!(img.0.get_pixel(6, 2).0, [0, 255, 0]);
    assert_eq!(img.0.get_pixel(7, 3).0, [0, 255, 0]);
    assert_eq!(img.0.get_pixel(2, 2).0, [255, 255, 255]);
    assert_eq!(img.0.get_pixel(9, 9).0, [255, 255, 255]);
    assert_eq!(img.0.as_raw().len(), 300);
}
