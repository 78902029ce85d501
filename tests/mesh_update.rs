use webify_models::mesh_update::{
    find_and_rename_image_references, has_several_references, lines_with_several_references,
    process, qualifies_exec, rewrite_reference_line, update_texture_path,
};

fn text(b: Vec<u8>) -> String {
    String::from_utf8(b).unwrap()
}

fn renamed(s: &str) -> String {
    text(find_and_rename_image_references(s.as_bytes()))
}

fn updated(s: &str) -> String {
    text(update_texture_path(s.as_bytes()))
}

fn processed(s: &str) -> String {
    text(process(s.as_bytes()))
}

const TEST_DAE: &str = "<!-- This is not a valid DAE, just a test file -->\n\n<image id=\"Test_Diffuse_jpg\">\n  <init_from>test_diffuse.jpg</init_from>\n</image>\n";
const ALREADY_PNG_DAE: &str = "<!-- This is not a valid DAE, just a test file -->\n\n<image id=\"Test_Diffuse_png\">\n  <init_from>test_diffuse.png</init_from>\n</image>\n";

#[test]
fn it_renamed_texture_references() {
    let result = renamed(TEST_DAE);
    assert_eq!(result, "<!-- This is not a valid DAE, just a test file -->\n\n<image id=\"Test_Diffuse_png\">\n  <init_from>test_diffuse.png</init_from>\n</image>\n");
}

#[test]
fn it_updated_texture_paths() {
    let result = updated(ALREADY_PNG_DAE);
    assert_eq!(result, "<!-- This is not a valid DAE, just a test file -->\n\n<image id=\"Test_Diffuse_png\">\n  <init_from>../materials/textures/test_diffuse.png</init_from>\n</image>\n");
}

#[test]
fn it_renamed_and_updated_texture_references() {
    let contents = processed(TEST_DAE);
    assert_eq!(contents, "<!-- This is not a valid DAE, just a test file -->\n\n<image id=\"Test_Diffuse_png\">\n  <init_from>../materials/textures/test_diffuse.png</init_from>\n</image>\n");
}

#[test]
fn jpg_reference_is_renamed_then_prefixed() {
    let line = "<init_from>test_diffuse.jpg</init_from>";
    let after_extensions = renamed(line);
    assert_eq!(after_extensions, "<init_from>test_diffuse.png</init_from>");
    assert_eq!(updated(&after_extensions), "<init_from>../materials/textures/test_diffuse.png</init_from>\n");
}

#[test]
fn already_prefixed_reference_is_unchanged() {
    let line = "<init_from>../materials/textures/test_diffuse.png</init_from>";
    assert_eq!(renamed(line), line);
    assert_eq!(processed(line), format!("{}\n", line));
}

#[test]
fn line_without_reference_passes_through() {
    assert_eq!(updated("<image id=\"x\">"), "<image id=\"x\">\n");
    assert_eq!(updated("just <init_from> opened"), "just <init_from> opened\n");
}

#[test]
fn empty_file_gives_empty_output() {
    assert_eq!(updated(""), "");
    assert_eq!(processed(""), "");
}

#[test]
fn each_source_token_becomes_its_canonical_form() {
    assert_eq!(renamed(".jpg"), ".png");
    assert_eq!(renamed("_jpg"), "_png");
    assert_eq!(renamed(".tga"), ".png");
    assert_eq!(renamed("_tga"), "_png");
    assert_eq!(renamed("a.jpg b_tga c.tga d_jpg"), "a.png b_png c.png d_png");
}

#[test]
fn other_extensions_are_left_alone() {
    let s = "a.png b_png c.jpeg d.JPG e.tif f.gif g-jpg";
    assert_eq!(renamed(s), s);
}

#[test]
fn newlines_are_normalised() {
    assert_eq!(updated("a\r\nb\nc"), "a\nb\nc\n");
    assert_eq!(updated("a\n\nb\n"), "a\n\nb\n");
    assert_eq!(updated("\n"), "\n");
    assert_eq!(updated("x\r"), "x\r\n");
    let out = updated("one\r\ntwo\r\nthree");
    assert_eq!(out.matches('\n').count(), 3);
    assert!(out.ends_with('\n'));
}

#[test]
fn rewrite_keeps_the_rest_of_the_line() {
    let line = "  <init_from>tex/a.png</init_from> <!-- keep -->";
    assert_eq!(
        updated(line),
        "  <init_from>../materials/textures/tex/a.png</init_from> <!-- keep -->\n"
    );
}

#[test]
fn rewrite_is_idempotent_on_a_mesh() {
    let once = processed(TEST_DAE);
    assert_eq!(processed(&once), once);
    assert_eq!(updated(&once), once);
}

#[test]
fn body_without_png_suffix_is_not_rewritten() {
    let line = "<init_from>test_diffuse.bmp</init_from>";
    assert_eq!(updated(line), format!("{}\n", line));
}

#[test]
fn body_holding_the_canonical_prefix_is_not_rewritten() {
    let line = "<init_from>model/../materials/textures/a.png</init_from>";
    assert_eq!(updated(line), format!("{}\n", line));
}

#[test]
fn body_without_the_full_prefix_is_rewritten() {
    let line = "<init_from>materials/textures/a.png</init_from>";
    assert_eq!(
        updated(line),
        "<init_from>../materials/textures/materials/textures/a.png</init_from>\n"
    );
}

#[test]
fn last_opening_delimiter_wins() {
    let line = "<init_from>x<init_from>a.png</init_from>";
    assert_eq!(
        text(rewrite_reference_line(line.as_bytes())),
        "<init_from>x<init_from>../materials/textures/a.png</init_from>"
    );
}

#[test]
fn only_the_last_reference_of_a_line_is_rewritten() {
    let line = "<init_from>a.png</init_from><init_from>b.png</init_from>";
    assert_eq!(
        text(rewrite_reference_line(line.as_bytes())),
        "<init_from>a.png</init_from><init_from>../materials/textures/b.png</init_from>"
    );
}

#[test]
fn first_occurrence_of_the_body_is_prefixed() {
    let line = "a.png <init_from>a.png</init_from>";
    assert_eq!(
        text(rewrite_reference_line(line.as_bytes())),
        "../materials/textures/a.png <init_from>a.png</init_from>"
    );
}

#[test]
fn closing_delimiter_alone_passes_through() {
    let line = "a.png</init_from>";
    assert_eq!(text(rewrite_reference_line(line.as_bytes())), line);
    assert_eq!(updated(line), "a.png</init_from>\n");
}

#[test]
fn closing_delimiter_after_a_reference_closes_nothing() {
    let line = "<init_from>a.jpg</init_from>b.png</init_from>";
    assert_eq!(text(rewrite_reference_line(line.as_bytes())), line);
}

#[test]
fn opening_delimiter_alone_passes_through() {
    let line = "<init_from>a.png";
    assert_eq!(text(rewrite_reference_line(line.as_bytes())), line);
}

#[test]
fn qualification() {
    assert!(qualifies_exec(b"a.png"));
    assert!(qualifies_exec(b".png"));
    assert!(!qualifies_exec(b"a.jpg"));
    assert!(!qualifies_exec(b"png"));
    assert!(!qualifies_exec(b""));
    assert!(!qualifies_exec(b"../materials/textures/a.png"));
    assert!(qualifies_exec(b"materials/a.png"));
    assert!(qualifies_exec(b"materials/textures/a.png"));
    assert!(!qualifies_exec(b"x/../materials/textures/"));
}

#[test]
fn several_references_on_a_line_are_flagged() {
    assert!(has_several_references(
        b"<init_from>a.png</init_from><init_from>b.png</init_from>"
    ));
    assert!(!has_several_references(b"<init_from>a.png</init_from>"));
    assert!(!has_several_references(b"<init_from>x<init_from>a.png</init_from>"));
    assert!(!has_several_references(b""));
}

#[test]
fn lines_with_several_references_are_listed() {
    let text = "<init_from>a.png</init_from>\r\n\
                <init_from>a.png</init_from> <init_from>b.png</init_from>\n\
                plain\n\
                </init_from></init_from></init_from>";
    assert_eq!(lines_with_several_references(text.as_bytes()), vec![1, 3]);
    assert!(lines_with_several_references(TEST_DAE.as_bytes()).is_empty());
    assert!(lines_with_several_references(b"").is_empty());
}
