use mesh_share::assets::{app_version_from, current_app_version, download_page, get_webtorrent_js};

#[test]
fn module_export_becomes_global() {
    assert_eq!(get_webtorrent_js("var a=1;export{Kt as default}"), "var a=1;globalThis.WebTorrent=Kt;");
    assert_eq!(get_webtorrent_js("x;export{ \n Qx as default};\n"), "x;globalThis.WebTorrent=Qx;");
}

#[test]
fn last_export_is_rewritten() {
    assert_eq!(get_webtorrent_js("export{A};b;export{B as default}"), "export{A};b;globalThis.WebTorrent=B;");
}

#[test]
fn empty_export_uses_fallback_name() {
    assert_eq!(get_webtorrent_js("q export{ }"), "q globalThis.WebTorrent=_WT;");
    assert_eq!(get_webtorrent_js("export{}"), "globalThis.WebTorrent=_WT;");
}

#[test]
fn script_without_export_is_unchanged() {
    assert_eq!(get_webtorrent_js("plain script"), "plain script");
    assert_eq!(get_webtorrent_js("export{ never closed"), "export{ never closed");
    assert_eq!(get_webtorrent_js(""), "");
}

#[test]
fn download_page_gets_version() {
    assert_eq!(download_page("<p>__APP_VERSION__</p>v__APP_VERSION__", "1.2.3"), "<p>1.2.3</p>v1.2.3");
    assert_eq!(download_page("none", "1"), "none");
}

#[test]
fn app_version_comes_from_config() {
    assert_eq!(current_app_version("{\"version\":\"2.0.1\",\"x\":1}", "0.1.0"), "2.0.1");
    assert_eq!(current_app_version("not json", "0.1.0"), "0.1.0");
    assert_eq!(current_app_version("{\"version\":3}", "0.1.0"), "0.1.0");
    assert_eq!(current_app_version("{}", "0.1.0"), "0.1.0");
    assert_eq!(app_version_from(Some("9".to_string()), "1"), "9");
    assert_eq!(app_version_from(None, "1"), "1");
}
