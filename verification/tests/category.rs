use rtree::{classify, Category};

#[test]
fn classification_ignores_case() {
    assert_eq!(classify("REPORT.CSV"), Category::Data);
    assert_eq!(classify("report.csv"), Category::Data);
    assert_eq!(classify("Report.Csv"), Category::Data);
    assert_eq!(classify("MAIN.RS"), Category::Code);
    assert_eq!(classify("logo.PnG"), Category::Image);
}

#[test]
fn data_extensions() {
    for ext in ["json", "csv", "dat", "xml", "yaml", "yml", "toml"] {
        assert_eq!(classify(&format!("file.{}", ext)), Category::Data, "{}", ext);
        assert_eq!(classify(&format!("file.{}", ext.to_uppercase())), Category::Data, "{}", ext);
    }
}

#[test]
fn code_extensions() {
    for ext in ["rs", "py", "r", "js", "ts", "cpp", "c", "h", "hpp", "java", "go"] {
        assert_eq!(classify(&format!("file.{}", ext)), Category::Code, "{}", ext);
        assert_eq!(classify(&format!("file.{}", ext.to_uppercase())), Category::Code, "{}", ext);
    }
}

#[test]
fn image_extensions() {
    for ext in ["png", "jpg", "jpeg", "gif", "bmp", "svg"] {
        assert_eq!(classify(&format!("file.{}", ext)), Category::Image, "{}", ext);
        assert_eq!(classify(&format!("file.{}", ext.to_uppercase())), Category::Image, "{}", ext);
    }
}

#[test]
fn unknown_or_missing_extension_is_default() {
    assert_eq!(classify("Makefile"), Category::Default);
    assert_eq!(classify("notes.txt"), Category::Default);
    assert_eq!(classify("archive.tar.gz"), Category::Default);
    assert_eq!(classify("trailing."), Category::Default);
    assert_eq!(classify(""), Category::Default);
    assert_eq!(classify("."), Category::Default);
    assert_eq!(classify("json"), Category::Default);
    assert_eq!(classify("rs"), Category::Default);
}

#[test]
fn only_the_text_after_the_final_dot_counts() {
    assert_eq!(classify("data.json.bak"), Category::Default);
    assert_eq!(classify("backup.bak.json"), Category::Data);
    assert_eq!(classify("a.b.c"), Category::Code);
    assert_eq!(classify("x.csv.png"), Category::Image);
    assert_eq!(classify(".json"), Category::Data);
    assert_eq!(classify(".profile"), Category::Default);
    assert_eq!(classify("..rs"), Category::Code);
}

#[test]
fn near_misses_are_default() {
    assert_eq!(classify("file.jsonx"), Category::Default);
    assert_eq!(classify("file.jso"), Category::Default);
    assert_eq!(classify("file.rs "), Category::Default);
    assert_eq!(classify("file. rs"), Category::Default);
    assert_eq!(classify("file.c++"), Category::Default);
    assert_eq!(classify("file.hp"), Category::Default);
}

#[test]
fn letters_outside_ascii_are_left_alone() {
    assert_eq!(classify("résumé.PNG"), Category::Image);
    assert_eq!(classify("file.ÇSV"), Category::Default);
    assert_eq!(classify("file.\u{212A}"), Category::Default);
    assert_eq!(classify("日本語.Toml"), Category::Data);
}

#[test]
fn color_codes() {
    assert_eq!(Category::Data.color_code(), "\x1b[33m");
    assert_eq!(Category::Code.color_code(), "\x1b[32m");
    assert_eq!(Category::Image.color_code(), "\x1b[35m");
    assert_eq!(Category::Default.color_code(), "\x1b[0m");
    assert_eq!(rtree::category::BLUE, "\x1b[34m");
    assert_eq!(rtree::category::RESET, "\x1b[0m");
}
