use rust_log_lab::export::{infer_format_from_path, FileExporter, StdoutExporter};
use rust_log_lab::model::OutputFormat;

#[test]
fn infer_markdown_format_from_extension() {
    assert_eq!(infer_format_from_path("target/report.md"), Some(OutputFormat::Markdown));
    assert_eq!(infer_format_from_path("target/report.csv"), Some(OutputFormat::Csv));
}

#[test]
fn infer_every_known_extension() {
    assert_eq!(infer_format_from_path("r.markdown"), Some(OutputFormat::Markdown));
    assert_eq!(infer_format_from_path("r.json"), Some(OutputFormat::Json));
    assert_eq!(infer_format_from_path("r.txt"), Some(OutputFormat::Text));
    assert_eq!(infer_format_from_path("r.text"), Some(OutputFormat::Text));
    assert_eq!(infer_format_from_path("R.MD"), Some(OutputFormat::Markdown));
    assert_eq!(infer_format_from_path("archive.tar.csv"), Some(OutputFormat::Csv));
}

#[test]
fn infer_follows_path_rules() {
    assert_eq!(infer_format_from_path("report"), None);
    assert_eq!(infer_format_from_path("report.log"), None);
    assert_eq!(infer_format_from_path(".md"), None);
    assert_eq!(infer_format_from_path("dir.md/report"), None);
    assert_eq!(infer_format_from_path("out/report.json/"), Some(OutputFormat::Json));
    assert_eq!(infer_format_from_path("out/report.json/."), Some(OutputFormat::Json));
    assert_eq!(infer_format_from_path("out/.."), None);
    assert_eq!(infer_format_from_path(""), None);
    assert_eq!(infer_format_from_path("/"), None);
    assert_eq!(infer_format_from_path("report."), None);
}

#[test]
fn file_exporter_keeps_its_path() {
    let exporter = FileExporter::new("target/out/report.md");
    assert_eq!(exporter.path(), "target/out/report.md");
    let _stdout = StdoutExporter;
}
