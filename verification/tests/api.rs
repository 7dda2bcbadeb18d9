use iris::api::{
    agent_info, choose_asset, default_limit, embedded_asset_path, embedded_content_type,
    get_agent_history, get_agent_metrics, get_mime_type, list_agents, static_asset_path,
    static_content_type, trim_leading_slashes, AgentInfo, ApiResponse, AssetChoice, HistoryQuery,
    ASSET_CACHE_CONTROL,
};
use iris::sample::Sample;
use iris::server::{
    HeartbeatResponse, ProbeServer, StreamSession, DB_PATH, REPORT_RECEIVED, STREAM_ESTABLISHED,
};
use iris::storage::StorageError;

fn sample(agent_id: &str, timestamp: i64, hostname: &str) -> Sample {
    Sample {
        agent_id: agent_id.to_string(),
        timestamp,
        hostname: hostname.to_string(),
        system: None,
    }
}

#[test]
fn response_envelopes() {
    let ok = ApiResponse::ok(5);
    assert_eq!(ok, ApiResponse { success: true, data: Some(5), message: None });
    let failed = ApiResponse::<i32>::error("broken".to_string());
    assert_eq!(
        failed,
        ApiResponse { success: false, data: None, message: Some("broken".to_string()) }
    );
}

#[test]
fn history_query_defaults_to_a_hundred() {
    assert_eq!(default_limit(), 100);
    assert_eq!(HistoryQuery::from_param(None), HistoryQuery { limit: 100 });
    assert_eq!(HistoryQuery::from_param(Some(7)), HistoryQuery { limit: 7 });
    assert_eq!(HistoryQuery::from_param(Some(0)), HistoryQuery { limit: 0 });
}

#[test]
fn list_of_agents_leaves_out_agents_without_a_sample() {
    let latest = vec![
        Some(sample("a", 10, "host-a")),
        None,
        Some(sample("c", 30, "host-c")),
        None,
    ];
    let infos = list_agents(&latest);
    assert_eq!(
        infos,
        vec![
            AgentInfo { agent_id: "a".to_string(), last_seen: 10, hostname: "host-a".to_string() },
            AgentInfo { agent_id: "c".to_string(), last_seen: 30, hostname: "host-c".to_string() },
        ]
    );
    assert!(list_agents(&vec![]).is_empty());
    assert_eq!(agent_info(&sample("x", -1, "h")).last_seen, -1);
}

#[test]
fn queries_without_data_are_not_found() {
    assert_eq!(get_agent_metrics(None), None);
    let found = get_agent_metrics(Some(sample("a", 1, "h"))).unwrap();
    assert!(found.success);
    assert_eq!(found.data.unwrap().timestamp, 1);
    assert_eq!(get_agent_history(vec![]), None);
    let history = get_agent_history(vec![sample("a", 1, "h"), sample("a", 2, "h")]).unwrap();
    assert_eq!(history.data.unwrap().len(), 2);
    assert_eq!(history.message, None);
}

#[test]
fn media_types_go_by_the_extension() {
    assert_eq!(get_mime_type("index.html"), "text/html");
    assert_eq!(get_mime_type("a/b/style.css"), "text/css");
    assert_eq!(get_mime_type("app.min.js"), "application/javascript");
    assert_eq!(get_mime_type("data.json"), "application/json");
    assert_eq!(get_mime_type("logo.png"), "image/png");
    assert_eq!(get_mime_type("photo.jpg"), "image/jpeg");
    assert_eq!(get_mime_type("photo.jpeg"), "image/jpeg");
    assert_eq!(get_mime_type("icon.svg"), "image/svg+xml");
    assert_eq!(get_mime_type("favicon.ico"), "image/x-icon");
    assert_eq!(get_mime_type("archive.tar.gz"), "application/octet-stream");
    assert_eq!(get_mime_type("README"), "application/octet-stream");
    assert_eq!(get_mime_type("page.HTML"), "application/octet-stream");
    assert_eq!(get_mime_type("html"), "text/html");
    assert_eq!(get_mime_type("dir.css/file"), "application/octet-stream");
    assert_eq!(get_mime_type("trailing."), "application/octet-stream");
    assert_eq!(get_mime_type(""), "application/octet-stream");
}

#[test]
fn asset_paths_lose_their_leading_slashes() {
    assert_eq!(trim_leading_slashes("///a/b"), "a/b");
    assert_eq!(trim_leading_slashes("a/b/"), "a/b/");
    assert_eq!(trim_leading_slashes("///"), "");
    assert_eq!(trim_leading_slashes(""), "");
    assert_eq!(trim_leading_slashes("/é/x"), "é/x");
}

#[test]
fn static_asset_paths_name_the_start_page_for_the_root() {
    assert_eq!(static_asset_path(""), "index.html");
    assert_eq!(static_asset_path("/"), "index.html");
    assert_eq!(static_asset_path("//"), "");
    assert_eq!(static_asset_path("/app.js"), "app.js");
    assert_eq!(static_asset_path("assets/app.js"), "assets/app.js");
    assert_eq!(static_asset_path("/dir/"), "dir/");
}

#[test]
fn embedded_asset_paths_name_the_start_page_for_directories() {
    assert_eq!(embedded_asset_path(""), "index.html");
    assert_eq!(embedded_asset_path("/"), "index.html");
    assert_eq!(embedded_asset_path("//"), "index.html");
    assert_eq!(embedded_asset_path("/dir/"), "index.html");
    assert_eq!(embedded_asset_path("/app.js"), "app.js");
    assert_eq!(embedded_asset_path("/a/b.css"), "a/b.css");
}

#[test]
fn asset_choice_falls_back_to_the_start_page() {
    assert_eq!(choose_asset(true, false, false), AssetChoice::Asset);
    assert_eq!(choose_asset(true, true, true), AssetChoice::Asset);
    assert_eq!(choose_asset(false, true, true), AssetChoice::StartPage);
    assert_eq!(choose_asset(false, true, false), AssetChoice::NotFound);
    assert_eq!(choose_asset(false, false, true), AssetChoice::NotFound);
    assert_eq!(ASSET_CACHE_CONTROL, "public, max-age=604800");
}

#[test]
fn embedded_media_types_come_from_the_guess_table() {
    let guess = |path: &str| embedded_content_type(AssetChoice::Asset, path);
    assert_eq!(guess("index.html"), Some("text/html".to_string()));
    assert_eq!(guess("static/app.css"), Some("text/css".to_string()));
    assert_eq!(guess("logo.PNG"), Some("image/png".to_string()));
    assert_eq!(guess("no-extension"), Some("application/octet-stream".to_string()));
    assert_eq!(
        guess("x.json"),
        Some(mime_guess::from_path("x.json").first_or_octet_stream().to_string())
    );
    assert_eq!(
        embedded_content_type(AssetChoice::StartPage, "missing.png"),
        Some("text/html".to_string())
    );
    assert_eq!(embedded_content_type(AssetChoice::NotFound, "missing.png"), None);
}

#[test]
fn static_media_types_follow_the_choice() {
    assert_eq!(static_content_type(AssetChoice::Asset, "a/b.css"), Some("text/css"));
    assert_eq!(static_content_type(AssetChoice::Asset, "b"), Some("application/octet-stream"));
    assert_eq!(static_content_type(AssetChoice::StartPage, "a/b.css"), Some("text/html"));
    assert_eq!(static_content_type(AssetChoice::NotFound, "a/b.css"), None);
}

#[test]
fn server_persists_where_the_data_directory_exists() {
    assert_eq!(ProbeServer::new(true).config.db_path, Some(DB_PATH.to_string()));
    assert_eq!(ProbeServer::new(false).config.db_path, None);
    assert_eq!(ProbeServer::memory_only().config.db_path, None);
    let server = ProbeServer::with_db_path("/tmp/x.redb");
    assert_eq!(server.config.db_path, Some("/tmp/x.redb".to_string()));
    assert_eq!(server.config.cache_size_per_agent, 100);
    assert_eq!(server.config.batch_size, 50);
    assert!(server.config.enable_cleanup);
    assert_eq!(DB_PATH, "/var/lib/iris/metrics.redb");
}

#[test]
fn read_api_listens_on_the_port_behind_the_ingest_port() {
    assert_eq!(ProbeServer::http_port(50051), Some(50052));
    assert_eq!(ProbeServer::http_port(0), Some(1));
    assert_eq!(ProbeServer::http_port(65534), Some(65535));
    assert_eq!(ProbeServer::http_port(65535), None);
}

#[test]
fn report_answers_follow_the_commit() {
    let answer = ProbeServer::report_metrics(Ok(())).unwrap();
    assert!(answer.success);
    assert_eq!(answer.message, "指标接收成功");
    assert_eq!(answer.message, REPORT_RECEIVED);
    assert_eq!(
        ProbeServer::report_metrics(Err(StorageError::TransientIo)),
        Err(StorageError::TransientIo)
    );
    let stream = ProbeServer::stream_metrics();
    assert!(stream.success);
    assert_eq!(stream.message, "流式连接已建立");
    assert_eq!(stream.message, STREAM_ESTABLISHED);
    assert_eq!(
        ProbeServer::heartbeat(1234),
        HeartbeatResponse { alive: true, server_time: 1234 }
    );
}

#[test]
fn stream_is_named_by_its_first_sample() {
    let mut session = StreamSession::new();
    assert_eq!(session.agent_id(), "");
    assert!(session.note_agent("agent-1"));
    assert_eq!(session.agent_id(), "agent-1");
    assert!(!session.note_agent("agent-2"));
    assert_eq!(session.agent_id(), "agent-1");
    let mut unnamed = StreamSession::new();
    assert!(unnamed.note_agent(""));
    assert!(unnamed.note_agent("late"));
    assert_eq!(unnamed.agent_id(), "late");
}
