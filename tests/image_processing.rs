use webify_models::image_processing::{
    get_new_textures_path, is_in_place, is_mesh_extension, is_under_base, is_texture_extension, needs_png_conversion, sort_by_extension,
    texture_destination, Image,
};

fn parts(p: &[&str]) -> Vec<String> {
    p.iter().map(|s| s.to_string()).collect()
}

fn image(p: &[&str], ext: &str) -> Image {
    Image { path: parts(p), extension: String::from(ext) }
}

#[test]
fn it_extracts_the_model_name() {
    let base_path = parts(&["some", "random", "path"]);
    let img = image(&["some", "random", "path", "foo_test", "foo.jpg"], "jpg");
    let result = get_new_textures_path(&img, &base_path);
    let new_textures_path =
        parts(&["some", "random", "path", "foo_test", "materials", "textures"]);
    assert_eq!(result, new_textures_path);
}

#[test]
fn model_name_is_the_first_component_under_the_base() {
    let base_path = parts(&["models"]);
    let img = image(&["models", "robot", "meshes", "deep", "skin.tga"], "tga");
    assert_eq!(
        get_new_textures_path(&img, &base_path),
        parts(&["models", "robot", "materials", "textures"])
    );
}

#[test]
fn stray_texture_moves_into_its_model() {
    let base_path = parts(&["models"]);
    let img = image(&["models", "robot", "images", "skin.jpg"], "jpg");
    assert_eq!(
        texture_destination(&img, &base_path),
        Some(parts(&["models", "robot", "materials", "textures", "skin.jpg"]))
    );
}

#[test]
fn texture_in_place_stays() {
    let base_path = parts(&["models"]);
    let in_textures = image(&["models", "robot", "materials", "textures", "skin.jpg"], "jpg");
    assert_eq!(texture_destination(&in_textures, &base_path), None);
    let in_meshes = image(&["models", "robot", "meshes", "skin.png"], "png");
    assert_eq!(texture_destination(&in_meshes, &base_path), None);
}

#[test]
fn texture_extensions_are_recognised() {
    for ext in ["tif", "tga", "tiff", "jpeg", "jpg", "gif", "png"] {
        assert!(is_texture_extension(&String::from(ext)), "{}", ext);
    }
    for ext in ["dae", "PNG", "bmp", "", "jp"] {
        assert!(!is_texture_extension(&String::from(ext)), "{}", ext);
    }
}

#[test]
fn mesh_extension_is_dae() {
    assert!(is_mesh_extension(&String::from("dae")));
    assert!(!is_mesh_extension(&String::from("obj")));
    assert!(!is_mesh_extension(&String::from("DAE")));
}

#[test]
fn png_and_tif_need_no_conversion() {
    assert!(!needs_png_conversion(&image(&["a.png"], "png")));
    assert!(!needs_png_conversion(&image(&["a.tif"], "tif")));
    assert!(needs_png_conversion(&image(&["a.jpg"], "jpg")));
    assert!(needs_png_conversion(&image(&["a.tiff"], "tiff")));
    assert!(needs_png_conversion(&image(&["a.tga"], "tga")));
}

#[test]
fn images_are_ordered_by_extension_largest_first() {
    let exts = ["jpg", "png", "tif", "gif", "tiff", "jpeg", "tga"];
    let images: Vec<Image> = exts.iter().map(|e| image(&["m", e], e)).collect();
    let sorted = sort_by_extension(images);
    let got: Vec<&str> = sorted.iter().map(|i| i.extension.as_str()).collect();
    assert_eq!(got, vec!["tiff", "tif", "tga", "png", "jpg", "jpeg", "gif"]);
}

#[test]
fn equal_extensions_keep_their_order() {
    let images = vec![
        image(&["a.png"], "png"),
        image(&["b.jpg"], "jpg"),
        image(&["c.png"], "png"),
        image(&["d.tga"], "tga"),
    ];
    let sorted = sort_by_extension(images);
    let got: Vec<String> = sorted.iter().map(|i| i.path[0].clone()).collect();
    assert_eq!(got, parts(&["d.tga", "a.png", "c.png", "b.jpg"]));
    assert!(sort_by_extension(Vec::new()).is_empty());
}

#[test]
fn placement_checks() {
    let base = parts(&["models"]);
    assert!(is_under_base(&base, &parts(&["models", "robot", "a.png"])));
    assert!(!is_under_base(&base, &parts(&["models"])));
    assert!(!is_under_base(&base, &parts(&["other", "robot", "a.png"])));
    assert!(is_in_place(&image(&["x", "materials", "textures", "a.png"], "png")));
    assert!(is_in_place(&image(&["x", "meshes", "a.png"], "png")));
    assert!(!is_in_place(&image(&["x", "images", "a.png"], "png")));
    assert!(!is_in_place(&image(&["a.png"], "png")));
}
