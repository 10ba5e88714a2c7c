use manga_downloader::config::{merge_download_path, Config};

#[test]
fn fresh_config_is_empty() {
    let c = Config::new();
    assert_eq!(c.cookie, "");
    assert_eq!(c.download_path, "");
}

#[test]
fn download_path_override() {
    let c = Config { cookie: "k".to_string(), download_path: "/old".to_string() };
    let merged = merge_download_path(c, Some("/new".to_string()));
    assert_eq!(merged.cookie, "k");
    assert_eq!(merged.download_path, "/new");
}

#[test]
fn download_path_kept_without_override() {
    let c = Config { cookie: "k".to_string(), download_path: "/old".to_string() };
    let merged = merge_download_path(c, None);
    assert_eq!(merged.cookie, "k");
    assert_eq!(merged.download_path, "/old");
}
