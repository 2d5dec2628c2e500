//! Tests for the configuration records and the pagination helpers.

use sqldump::config::{
    remove_server, remove_snippet, upsert_server, upsert_snippet, AIConfig, AppPreferences,
    DbConfig, QueryHistoryItem, ServerConfig, Snippet,
};
use sqldump::pagination::{page_count, render_pagination_html, u64_to_string};

fn snippet(id: &str, name: &str) -> Snippet {
    Snippet {
        id: id.to_string(),
        name: name.to_string(),
        sql: "SELECT 1".to_string(),
        description: None,
        created_at: "t0".to_string(),
    }
}

fn server(id: &str, name: &str) -> ServerConfig {
    ServerConfig {
        id: id.to_string(),
        name: name.to_string(),
        host: "localhost".to_string(),
        port: 3306,
        user: "root".to_string(),
        pass: None,
        ssl: None,
        ssh_enabled: None,
        ssh_host: None,
        ssh_port: None,
        ssh_user: None,
        ssh_pass: None,
        auto_connect: None,
    }
}

#[test]
fn saving_a_new_snippet_appends_it() {
    let mut list = vec![snippet("a", "first")];
    upsert_snippet(&mut list, snippet("b", "second"));
    assert_eq!(list.len(), 2);
    assert_eq!(list[0].id, "a");
    assert_eq!(list[1].id, "b");
}

#[test]
fn saving_an_existing_snippet_replaces_it_in_place() {
    let mut list = vec![snippet("a", "first"), snippet("b", "second"), snippet("c", "third")];
    upsert_snippet(&mut list, snippet("b", "renamed"));
    assert_eq!(list.len(), 3);
    assert_eq!(list[0].name, "first");
    assert_eq!(list[1].name, "renamed");
    assert_eq!(list[2].name, "third");
}

#[test]
fn deleting_a_snippet_keeps_the_others_in_order() {
    let list = vec![snippet("a", "first"), snippet("b", "second"), snippet("a", "again")];
    let kept = remove_snippet(&list, &"a".to_string());
    assert_eq!(kept.len(), 1);
    assert_eq!(kept[0].id, "b");
    let unchanged = remove_snippet(&list, &"zz".to_string());
    assert_eq!(unchanged.len(), 3);
}

#[test]
fn saving_and_deleting_servers_mirrors_the_snippet_store() {
    let mut list = vec![server("s1", "alpha")];
    upsert_server(&mut list, server("s2", "beta"));
    upsert_server(&mut list, server("s1", "gamma"));
    assert_eq!(list.len(), 2);
    assert_eq!(list[0].name, "gamma");
    assert_eq!(list[1].name, "beta");
    let kept = remove_server(&list, &"s1".to_string());
    assert_eq!(kept.len(), 1);
    assert_eq!(kept[0].name, "beta");
}

#[test]
fn fresh_preferences_have_the_documented_defaults() {
    let p = AppPreferences::default();
    assert_eq!(p.theme, "dark");
    assert_eq!(p.accent_color, "blue");
    assert_eq!(p.density, "default");
    assert_eq!(p.font_family, "sans");
    assert_eq!(p.dashboard_view_mode, "grid");
    assert!(!p.show_system_dbs);
    assert!(p.query_history.is_empty());
}

#[test]
fn fresh_assistant_settings_point_at_the_local_provider() {
    let c = AIConfig::default();
    assert_eq!(c.provider, "ollama");
    assert!(c.api_key.is_none());
    assert_eq!(c.model, "llama3");
    assert_eq!(c.endpoint.as_deref(), Some("http://localhost:11434"));
}

#[test]
fn config_records_hold_their_fields() {
    let s = ServerConfig {
        id: "1".to_string(),
        name: "local".to_string(),
        host: "127.0.0.1".to_string(),
        port: 3306,
        user: "root".to_string(),
        pass: None,
        ssl: Some(false),
        ssh_enabled: None,
        ssh_host: None,
        ssh_port: None,
        ssh_user: None,
        ssh_pass: None,
        auto_connect: Some(true),
    };
    assert_eq!(s.port, 3306);
    let d = DbConfig {
        host: s.host.clone(),
        user: s.user.clone(),
        pass: String::new(),
        port: s.port,
        ssl: s.ssl,
        ssh_enabled: None,
        ssh_host: None,
        ssh_port: None,
        ssh_user: None,
        ssh_pass: None,
    };
    assert_eq!(d.host, "127.0.0.1");
    let n = Snippet {
        id: "a".to_string(),
        name: "count".to_string(),
        sql: "SELECT COUNT(*) FROM t".to_string(),
        description: None,
        created_at: "now".to_string(),
    };
    assert_eq!(n.name, "count");
    let h = QueryHistoryItem {
        sql: "SELECT 1".to_string(),
        timestamp: "t0".to_string(),
    };
    assert_eq!(h.sql, "SELECT 1");
}

#[test]
fn page_count_rounds_up_and_never_returns_zero() {
    assert_eq!(page_count(0, 10), 1);
    assert_eq!(page_count(1, 10), 1);
    assert_eq!(page_count(10, 10), 1);
    assert_eq!(page_count(11, 10), 2);
    assert_eq!(page_count(95, 10), 10);
    assert_eq!(page_count(100, 10), 10);
    assert_eq!(page_count(101, 10), 11);
    assert_eq!(page_count(7, 1), 7);
}

#[test]
fn decimal_text_matches_the_standard_rendering() {
    assert_eq!(u64_to_string(0), "0");
    assert_eq!(u64_to_string(10), "10");
    assert_eq!(u64_to_string(987654321), 987654321u64.to_string());
    assert_eq!(u64_to_string(u64::MAX), u64::MAX.to_string());
}

#[test]
fn pagination_html_matches_the_reference_template() {
    let page: u32 = 2;
    let total: u64 = 95;
    let limit: u32 = 10;
    let total_pages: u32 = 10;
    let prev_disabled = "";
    let next_disabled = "";
    let expected = format!(
        "\n        <div class=\"flex items-center gap-2 p-2 px-4 bg-black/10 border-b border-white/5\">\n            <span class=\"text-[11px] opacity-60 mr-4\">Showing page <b>{}</b> of <b>{}</b> ({} total rows)</span>\n            \n            <button class=\"icon-btn-sm\" title=\"First\" onclick=\"document.dispatchEvent(new CustomEvent('browse:page', {{detail: {}}}));\" {}>\n                <i data-lucide=\"chevrons-left\"></i>\n            </button>\n            <button class=\"icon-btn-sm\" title=\"Prev\" onclick=\"document.dispatchEvent(new CustomEvent('browse:page', {{detail: {}}}));\" {}>\n                <i data-lucide=\"chevron-left\"></i>\n            </button>\n            \n            <span class=\"mx-2 text-xs font-mono opacity-80 bg-white/5 px-2 py-1 rounded\">{}</span>\n            \n            <button class=\"icon-btn-sm\" title=\"Next\" onclick=\"document.dispatchEvent(new CustomEvent('browse:page', {{detail: {}}}));\" {}>\n                <i data-lucide=\"chevron-right\"></i>\n            </button>\n            <button class=\"icon-btn-sm\" title=\"Last\" onclick=\"document.dispatchEvent(new CustomEvent('browse:page', {{detail: {}}}));\" {}>\n                <i data-lucide=\"chevrons-right\"></i>\n            </button>\n        </div>\n    ",
        page,
        total_pages,
        total,
        1 - (page as i32),
        prev_disabled,
        -1,
        prev_disabled,
        page,
        1,
        next_disabled,
        (total_pages as i32) - (page as i32),
        next_disabled
    );
    assert_eq!(render_pagination_html(page, total, limit), expected);
}

#[test]
fn pagination_html_disables_ends() {
    let first = render_pagination_html(1, 30, 10);
    assert!(first.contains("title=\"First\" onclick=\"document.dispatchEvent(new CustomEvent('browse:page', {detail: 0}));\" disabled"));
    let last = render_pagination_html(3, 30, 10);
    assert!(last.contains("title=\"Last\" onclick=\"document.dispatchEvent(new CustomEvent('browse:page', {detail: 0}));\" disabled"));
}
