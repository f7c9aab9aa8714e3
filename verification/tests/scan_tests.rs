use similar_images::paths::{has_image_extension, is_hidden, normalize_path, str_lt};
use similar_images::scan::{collect_samples, sample_directory, sort_paths};

fn strings(names: &[&str]) -> Vec<String> {
    names.iter().map(|s| s.to_string()).collect()
}

#[test]
fn twelve_files_sample_to_the_five_first_and_five_last() {
    let files = strings(&[
        "img_03.jpg", "img_01.jpg", "img_12.jpg", "img_07.jpg", "img_05.jpg", "img_09.jpg",
        "img_02.jpg", "img_11.jpg", "img_04.jpg", "img_10.jpg", "img_06.jpg", "img_08.jpg",
    ]);
    let sample = sample_directory(&files);
    assert_eq!(
        sample,
        strings(&[
            "img_01.jpg", "img_02.jpg", "img_03.jpg", "img_04.jpg", "img_05.jpg", "img_08.jpg",
            "img_09.jpg", "img_10.jpg", "img_11.jpg", "img_12.jpg",
        ])
    );
}

#[test]
fn six_files_sample_to_all_six_without_duplicates() {
    let files = strings(&[
        "f.png", "a.png", "c.png", "e.png", "b.png", "d.png",
    ]);
    let sample = sample_directory(&files);
    assert_eq!(
        sample,
        strings(&["a.png", "b.png", "c.png", "d.png", "e.png", "f.png"])
    );
}

#[test]
fn eleven_files_drop_only_the_middle_one() {
    let files = strings(&[
        "k06.jpg", "k01.jpg", "k02.jpg", "k03.jpg", "k04.jpg", "k05.jpg", "k07.jpg", "k08.jpg",
        "k09.jpg", "k10.jpg", "k11.jpg",
    ]);
    let sample = sample_directory(&files);
    assert_eq!(
        sample,
        strings(&[
            "k01.jpg", "k02.jpg", "k03.jpg", "k04.jpg", "k05.jpg", "k07.jpg", "k08.jpg",
            "k09.jpg", "k10.jpg", "k11.jpg",
        ])
    );
}

#[test]
fn non_image_files_are_filtered_out() {
    let files = strings(&["notes.txt", "b.jpeg", "archive.tar.gz", "a.PNG", "readme"]);
    let sample = sample_directory(&files);
    assert_eq!(sample, strings(&["a.PNG", "b.jpeg"]));
}

#[test]
fn samples_concatenate_in_directory_order() {
    let listings = vec![
        strings(&["z.jpg", "y.jpg"]),
        strings(&["doc.pdf"]),
        strings(&["a.png"]),
    ];
    let all = collect_samples(&listings);
    assert_eq!(all, strings(&["y.jpg", "z.jpg", "a.png"]));
}

#[test]
fn image_extensions_match_case_insensitively() {
    assert!(has_image_extension("photo.jpg"));
    assert!(has_image_extension("photo.JPEG"));
    assert!(has_image_extension("photo.Png"));
    assert!(has_image_extension("dir/sub/photo.jpg"));
    assert!(has_image_extension("dir\\sub\\photo.jpg"));
    assert!(!has_image_extension("photo.gif"));
    assert!(!has_image_extension("photo"));
    assert!(!has_image_extension("archive.tar.gz"));
    // a leading dot starts a hidden name, not an extension
    assert!(!has_image_extension(".jpg"));
    assert!(!has_image_extension("dir/.png"));
    // a trailing dot leaves an empty extension
    assert!(!has_image_extension("photo."));
}

#[test]
fn hidden_names_start_with_a_dot() {
    assert!(is_hidden(".git"));
    assert!(!is_hidden("photo.jpg"));
    assert!(!is_hidden(""));
}

#[test]
fn path_order_is_lexicographic() {
    assert!(str_lt("a", "b"));
    assert!(str_lt("a", "ab"));
    assert!(!str_lt("ab", "a"));
    assert!(!str_lt("a", "a"));
    assert!(str_lt("IMG_001.jpg", "IMG_002.jpg"));
    let sorted = sort_paths(&strings(&["b.jpg", "a.jpg", "c.jpg", "a.jpg"]));
    assert_eq!(sorted, strings(&["a.jpg", "a.jpg", "b.jpg", "c.jpg"]));
}

#[test]
fn normalize_path_builds_the_webview_url() {
    assert_eq!(
        normalize_path("C:\\photos\\cat.jpg"),
        "http://dioxus.localhost/C:/photos/cat.jpg"
    );
    assert_eq!(
        normalize_path("already/forward.jpg"),
        "http://dioxus.localhost/already/forward.jpg"
    );
    assert_eq!(normalize_path(""), "http://dioxus.localhost/");
}
